//! The order-theoretic part of the miniature diagrams that show a suborder
//! of a lattice: which selected relations are covers of the suborder, and
//! which relations are drawn, in order, highlighted or dimmed.

use crate::bits::{max_bits, repeat_rows, Bits};
use crate::edges::Edge;
use crate::tikz::geometry::edges_within;
use vstd::prelude::*;

verus! {

/// The relation of the selected suborder: the identity and the selected
/// proper relations.
pub open spec fn selected_relation(proper: Seq<Edge>, selected: Seq<bool>, i: int, j: int) -> bool {
    i == j || exists|k: int|
        0 <= k < proper.len() && selected[k] && (#[trigger] proper[k]).from == i && proper[k].to == j
}

/// Some element other than the ends of `e` lies between them in the
/// selected suborder.
pub open spec fn has_middle(proper: Seq<Edge>, selected: Seq<bool>, n: int, e: Edge) -> bool {
    exists|m: int|
        0 <= m < n && m != e.from && m != e.to && #[trigger] selected_relation(proper, selected, e.from as int, m)
            && selected_relation(proper, selected, m, e.to as int)
}

/// The selected relations among the first `t` that are covers of the
/// selected suborder, in order.
pub open spec fn selected_covers(proper: Seq<Edge>, selected: Seq<bool>, n: int, t: int) -> Seq<Edge>
    decreases t,
{
    if t <= 0 {
        Seq::empty()
    } else {
        selected_covers(proper, selected, n, t - 1) + if selected[t - 1] && !has_middle(
            proper,
            selected,
            n,
            proper[t - 1],
        ) {
            seq![proper[t - 1]]
        } else {
            Seq::empty()
        }
    }
}

/// The rows of the selected suborder's relation for the first `t`
/// relations.
spec fn relation_after(proper: Seq<Edge>, selected: Seq<bool>, t: int, i: int, j: int) -> bool {
    i == j || exists|k: int| 0 <= k < t && selected[k] && (#[trigger] proper[k]).from == i && proper[k].to == j
}

/// The selected relations that are covers of the suborder they select,
/// in the order given.
pub fn selected_cover_relations(lattice_size: usize, proper_edges: &[Edge], selected: &[bool]) -> (r: Vec<Edge>)
    requires
        edges_within(proper_edges@, lattice_size as int),
        selected@.len() == proper_edges@.len(),
        lattice_size <= max_bits(),
    ensures
        r@ == selected_covers(proper_edges@, selected@, lattice_size as int, proper_edges@.len() as int),
{
    let n = lattice_size;
    let ghost proper = proper_edges@;
    let ghost sel = selected@;
    let mut rows = repeat_rows(false, n, n);
    let mut i: usize = 0;
    while i < n
        invariant
            i <= n,
            n <= max_bits(),
            rows@.len() == n,
            forall|a: int| 0 <= a < n ==> (#[trigger] rows@[a])@.len() == n,
            forall|a: int, b: int| 0 <= a < n && 0 <= b < n ==> #[trigger] rows@[a]@[b] == (a == b && a < i),
        decreases n - i,
    {
        let mut row = rows[i].duplicate();
        row.set(i, true);
        rows.set(i, row);
        i += 1;
    }
    let mut t: usize = 0;
    while t < proper_edges.len()
        invariant
            proper == proper_edges@,
            sel == selected@,
            sel.len() == proper.len(),
            edges_within(proper, n as int),
            t <= proper.len(),
            rows@.len() == n,
            forall|a: int| 0 <= a < n ==> (#[trigger] rows@[a])@.len() == n,
            forall|a: int, b: int|
                0 <= a < n && 0 <= b < n ==> #[trigger] rows@[a]@[b] == relation_after(proper, sel, t as int, a, b),
        decreases proper.len() - t,
    {
        if selected[t] {
            let edge = proper_edges[t];
            let mut row = rows[edge.from].duplicate();
            row.set(edge.to, true);
            rows.set(edge.from, row);
        }
        proof {
            assert forall|a: int, b: int| 0 <= a < n && 0 <= b < n implies #[trigger] rows@[a]@[b] == relation_after(
                proper,
                sel,
                t + 1,
                a,
                b,
            ) by {
                if sel[t as int] && a == proper[t as int].from && b == proper[t as int].to {
                    assert(relation_after(proper, sel, t + 1, a, b));
                } else if relation_after(proper, sel, t + 1, a, b) && a != b {
                    let k = choose|k: int| 0 <= k < t + 1 && sel[k] && (#[trigger] proper[k]).from == a && proper[k].to == b;
                    if k == t {
                    }
                }
            }
        }
        t += 1;
    }
    proof {
        assert forall|a: int, b: int| 0 <= a < n && 0 <= b < n implies #[trigger] rows@[a]@[b] == selected_relation(
            proper,
            sel,
            a,
            b,
        ) by {
            assert(relation_after(proper, sel, proper.len() as int, a, b) == selected_relation(proper, sel, a, b));
        }
    }
    let mut covers: Vec<Edge> = Vec::new();
    let mut t: usize = 0;
    while t < proper_edges.len()
        invariant
            proper == proper_edges@,
            sel == selected@,
            sel.len() == proper.len(),
            edges_within(proper, n as int),
            t <= proper.len(),
            rows@.len() == n,
            forall|a: int| 0 <= a < n ==> (#[trigger] rows@[a])@.len() == n,
            forall|a: int, b: int|
                0 <= a < n && 0 <= b < n ==> #[trigger] rows@[a]@[b] == selected_relation(proper, sel, a, b),
            covers@ == selected_covers(proper, sel, n as int, t as int),
        decreases proper.len() - t,
    {
        if selected[t] {
            let edge = proper_edges[t];
            let mut found = false;
            let mut middle: usize = 0;
            while middle < n
                invariant
                    rows@.len() == n,
                    forall|a: int| 0 <= a < n ==> (#[trigger] rows@[a])@.len() == n,
                    forall|a: int, b: int|
                        0 <= a < n && 0 <= b < n ==> #[trigger] rows@[a]@[b] == selected_relation(proper, sel, a, b),
                    edge.from < n,
                    edge.to < n,
                    middle <= n,
                    found == exists|m: int|
                        0 <= m < middle && m != edge.from && m != edge.to && #[trigger] selected_relation(
                            proper,
                            sel,
                            edge.from as int,
                            m,
                        ) && selected_relation(proper, sel, m, edge.to as int),
                decreases n - middle,
            {
                if middle != edge.from && middle != edge.to && rows[edge.from].bit(middle) && rows[middle].bit(edge.to) {
                    found = true;
                }
                middle += 1;
            }
            if !found {
                covers.push(edge);
            }
        }
        proof {
            assert(covers@ =~= selected_covers(proper, sel, n as int, t + 1));
        }
        t += 1;
    }
    covers
}

/// `edges` lists the relation from `i` to `j`.
pub open spec fn listed(edges: Seq<Edge>, i: int, j: int) -> bool {
    exists|k: int| 0 <= k < edges.len() && (#[trigger] edges[k]).from == i && edges[k].to == j
}

/// The relations from `i` to the first `end` elements that either list
/// holds, in increasing order, with whether `highlighted` holds each.
pub open spec fn row_plan(ambient: Seq<Edge>, highlighted: Seq<Edge>, i: int, end: int) -> Seq<(Edge, bool)>
    decreases end,
{
    if end <= 0 {
        Seq::empty()
    } else {
        let j = end - 1;
        row_plan(ambient, highlighted, i, j) + if listed(ambient, i, j) || listed(highlighted, i, j) {
            seq![(Edge { from: i as usize, to: j as usize }, listed(highlighted, i, j))]
        } else {
            Seq::empty()
        }
    }
}

/// The relations from the first `rows` elements that either list holds,
/// in increasing order of source and then target, each with whether
/// `highlighted` holds it.
pub open spec fn edge_plan(ambient: Seq<Edge>, highlighted: Seq<Edge>, n: int, rows: int) -> Seq<(Edge, bool)>
    decreases rows,
{
    if rows <= 0 {
        Seq::empty()
    } else {
        edge_plan(ambient, highlighted, n, rows - 1) + row_plan(ambient, highlighted, rows - 1, n)
    }
}

/// Marks the relations that `edges` lists in an `n`-by-`n` matrix.
fn mark_edges(n: usize, edges: &[Edge]) -> (r: Vec<Bits>)
    requires
        edges_within(edges@, n as int),
        n <= max_bits(),
    ensures
        r@.len() == n,
        forall|a: int| 0 <= a < n ==> (#[trigger] r@[a])@.len() == n,
        forall|a: int, b: int| 0 <= a < n && 0 <= b < n ==> #[trigger] r@[a]@[b] == listed(edges@, a, b),
{
    let mut rows = repeat_rows(false, n, n);
    let mut t: usize = 0;
    while t < edges.len()
        invariant
            edges_within(edges@, n as int),
            t <= edges@.len(),
            rows@.len() == n,
            forall|a: int| 0 <= a < n ==> (#[trigger] rows@[a])@.len() == n,
            forall|a: int, b: int| 0 <= a < n && 0 <= b < n ==> #[trigger] rows@[a]@[b] == listed(edges@.take(t as int), a, b),
        decreases edges@.len() - t,
    {
        let edge = edges[t];
        let mut row = rows[edge.from].duplicate();
        row.set(edge.to, true);
        rows.set(edge.from, row);
        proof {
            let prefix = edges@.take(t + 1);
            assert forall|a: int, b: int| 0 <= a < n && 0 <= b < n implies #[trigger] rows@[a]@[b] == listed(prefix, a, b) by {
                if a == edge.from && b == edge.to {
                    assert(prefix[t as int] == edge);
                } else {
                    if listed(prefix, a, b) {
                        let k = choose|k: int| 0 <= k < prefix.len() && (#[trigger] prefix[k]).from == a && prefix[k].to == b;
                        assert(edges@.take(t as int)[k] == prefix[k]);
                    }
                    if listed(edges@.take(t as int), a, b) {
                        let k = choose|k: int| 0 <= k < t && (#[trigger] edges@.take(t as int)[k]).from == a && edges@.take(t as int)[k].to == b;
                        assert(prefix[k] == edges@.take(t as int)[k]);
                    }
                }
            }
        }
        t += 1;
    }
    assert(edges@.take(edges@.len() as int) =~= edges@);
    rows
}

/// The relations drawn in a suborder diagram: every relation that either
/// list holds, once, in increasing order of source and then target, each
/// with whether it is highlighted.
pub fn glyph_edge_plan(n: usize, ambient: &[Edge], highlighted: &[Edge]) -> (r: (Vec<Edge>, Vec<bool>))
    requires
        edges_within(ambient@, n as int),
        edges_within(highlighted@, n as int),
        n <= max_bits(),
    ensures
        r.0@.len() == r.1@.len(),
        r.0@.len() == edge_plan(ambient@, highlighted@, n as int, n as int).len(),
        forall|k: int| 0 <= k < r.0@.len() ==> (#[trigger] r.0@[k], r.1@[k]) == edge_plan(ambient@, highlighted@, n as int, n as int)[k],
{
    let visible_rows = mark_edges(n, ambient);
    let highlighted_rows = mark_edges(n, highlighted);
    let ghost plan = edge_plan(ambient@, highlighted@, n as int, n as int);
    let mut edges: Vec<Edge> = Vec::new();
    let mut flags: Vec<bool> = Vec::new();
    let mut i: usize = 0;
    while i < n
        invariant
            i <= n,
            visible_rows@.len() == n,
            highlighted_rows@.len() == n,
            forall|a: int| 0 <= a < n ==> (#[trigger] visible_rows@[a])@.len() == n,
            forall|a: int| 0 <= a < n ==> (#[trigger] highlighted_rows@[a])@.len() == n,
            forall|a: int, b: int| 0 <= a < n && 0 <= b < n ==> #[trigger] visible_rows@[a]@[b] == listed(ambient@, a, b),
            forall|a: int, b: int| 0 <= a < n && 0 <= b < n ==> #[trigger] highlighted_rows@[a]@[b] == listed(highlighted@, a, b),
            edges@.len() == flags@.len(),
            edges@.len() == edge_plan(ambient@, highlighted@, n as int, i as int).len(),
            forall|k: int| 0 <= k < edges@.len() ==> (#[trigger] edges@[k], flags@[k]) == edge_plan(ambient@, highlighted@, n as int, i as int)[k],
        decreases n - i,
    {
        let ghost base = edge_plan(ambient@, highlighted@, n as int, i as int);
        let mut j: usize = 0;
        while j < n
            invariant
                i < n,
                j <= n,
                visible_rows@.len() == n,
                highlighted_rows@.len() == n,
                forall|a: int| 0 <= a < n ==> (#[trigger] visible_rows@[a])@.len() == n,
                forall|a: int| 0 <= a < n ==> (#[trigger] highlighted_rows@[a])@.len() == n,
                forall|a: int, b: int| 0 <= a < n && 0 <= b < n ==> #[trigger] visible_rows@[a]@[b] == listed(ambient@, a, b),
                forall|a: int, b: int| 0 <= a < n && 0 <= b < n ==> #[trigger] highlighted_rows@[a]@[b] == listed(highlighted@, a, b),
                base == edge_plan(ambient@, highlighted@, n as int, i as int),
                edges@.len() == flags@.len(),
                edges@.len() == base.len() + row_plan(ambient@, highlighted@, i as int, j as int).len(),
                forall|k: int| 0 <= k < edges@.len() ==> (#[trigger] edges@[k], flags@[k]) == (base + row_plan(ambient@, highlighted@, i as int, j as int))[k],
            decreases n - j,
        {
            let is_highlighted = highlighted_rows[i].bit(j);
            if visible_rows[i].bit(j) || is_highlighted {
                edges.push(Edge::new(i, j));
                flags.push(is_highlighted);
            }
            proof {
                let next = base + row_plan(ambient@, highlighted@, i as int, j + 1);
                assert(next =~= (base + row_plan(ambient@, highlighted@, i as int, j as int)) + if listed(ambient@, i as int, j as int)
                    || listed(highlighted@, i as int, j as int) {
                    seq![(Edge { from: i, to: j }, listed(highlighted@, i as int, j as int))]
                } else {
                    Seq::empty()
                });
                assert forall|k: int| 0 <= k < edges@.len() implies (#[trigger] edges@[k], flags@[k]) == next[k] by {}
            }
            j += 1;
        }
        i += 1;
    }
    (edges, flags)
}

} // verus!
