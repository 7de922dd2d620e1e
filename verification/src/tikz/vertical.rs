//! Vertical placement of the elements of a poset drawing: the earliest
//! feasible rank of each element (the length of a longest chain of covers
//! ending at it) and twice its centered feasible rank.

use crate::edges::Edge;
use crate::tikz::geometry::edges_within;
use crate::tikz::layered::{lemma_distinct_below, push_into, seqs_of};
use vstd::prelude::*;

verus! {

/// `rank` strictly increases along every cover.
pub open spec fn ranked_by(covers: Seq<Edge>, rank: Seq<nat>, n: int) -> bool {
    &&& rank.len() == n
    &&& forall|c: int| 0 <= c < covers.len() ==> rank[(#[trigger] covers[c]).from as int] < rank[covers[c].to as int]
}

/// The covers form no cycle: some ranking increases along all of them.
pub open spec fn acyclic(covers: Seq<Edge>, n: int) -> bool {
    exists|rank: Seq<nat>| #[trigger] ranked_by(covers, rank, n)
}

/// `h` gives the length of a longest chain of covers ending at each element:
/// every cover climbs by at least one, and every positive value is reached
/// by a cover from one below.
pub open spec fn is_height(covers: Seq<Edge>, n: int, h: Seq<usize>) -> bool {
    &&& h.len() == n
    &&& forall|c: int| 0 <= c < covers.len() ==> h[(#[trigger] covers[c]).to as int] >= h[covers[c].from as int] + 1
    &&& forall|v: int|
        0 <= v < n ==> #[trigger] h[v] == 0 || exists|c: int|
            0 <= c < covers.len() && (#[trigger] covers[c]).to == v && h[v] == h[covers[c].from as int] + 1
}

/// `d` gives the length of a longest chain of covers starting at each
/// element.
pub open spec fn is_depth(covers: Seq<Edge>, n: int, d: Seq<usize>) -> bool {
    &&& d.len() == n
    &&& forall|c: int| 0 <= c < covers.len() ==> d[(#[trigger] covers[c]).from as int] >= d[covers[c].to as int] + 1
    &&& forall|v: int|
        0 <= v < n ==> #[trigger] d[v] == 0 || exists|c: int|
            0 <= c < covers.len() && (#[trigger] covers[c]).from == v && d[v] == d[covers[c].to as int] + 1
}

/// The largest entry, or zero.
pub open spec fn max_entry(s: Seq<usize>) -> int
    decreases s.len(),
{
    if s.len() == 0 {
        0
    } else {
        let rest = max_entry(s.drop_last());
        if s.last() > rest {
            s.last() as int
        } else {
            rest
        }
    }
}

/// The vertical placement of a poset drawing.
pub struct VerticalLevels {
    /// The earliest feasible rank of each element.
    pub earliest: Vec<usize>,
    /// Twice the centered feasible rank of each element: its earliest rank
    /// plus its latest, `longest - depth`.
    pub centered: Vec<usize>,
}

/// The number of covers before `k` into `v` that are not yet consumed.
pub open spec fn pending(covers: Seq<Edge>, consumed: Seq<bool>, v: int, k: int) -> int
    decreases k,
{
    if k <= 0 {
        0
    } else {
        pending(covers, consumed, v, k - 1) + if covers[k - 1].to == v && !consumed[k - 1] {
            1int
        } else {
            0
        }
    }
}

proof fn lemma_pending_consume(covers: Seq<Edge>, consumed: Seq<bool>, c: int, v: int, k: int)
    requires
        0 <= c < consumed.len(),
        k <= consumed.len(),
    ensures
        pending(covers, consumed.update(c, true), v, k) == pending(covers, consumed, v, k) - if c < k
            && covers[c].to == v && !consumed[c] {
            1int
        } else {
            0
        },
    decreases k,
{
    if k > 0 {
        lemma_pending_consume(covers, consumed, c, v, k - 1);
    }
}

proof fn lemma_pending_zero(covers: Seq<Edge>, consumed: Seq<bool>, v: int, k: int)
    ensures
        pending(covers, consumed, v, k) >= 0,
        pending(covers, consumed, v, k) == 0 ==> forall|c: int|
            0 <= c < k && #[trigger] covers[c].to == v ==> consumed[c],
    decreases k,
{
    if k > 0 {
        lemma_pending_zero(covers, consumed, v, k - 1);
    }
}

proof fn lemma_pending_all(covers: Seq<Edge>, consumed: Seq<bool>, v: int, k: int)
    requires
        forall|c: int| 0 <= c < k && covers[c].to == v ==> #[trigger] consumed[c],
    ensures
        pending(covers, consumed, v, k) == 0,
    decreases k,
{
    if k > 0 {
        lemma_pending_all(covers, consumed, v, k - 1);
    }
}

/// Every cover into an element of rank at most `k` starts at a processed
/// element, so all such elements are processed (given that an unprocessed
/// element has an unconsumed cover into it).
proof fn lemma_all_processed(covers: Seq<Edge>, rank: Seq<nat>, n: int, done: Seq<bool>, consumed: Seq<bool>, k: int, v: int)
    requires
        ranked_by(covers, rank, n),
        done.len() == n,
        consumed.len() == covers.len(),
        edges_within(covers, n),
        forall|c: int| 0 <= c < covers.len() ==> #[trigger] consumed[c] == done[covers[c].from as int],
        forall|w: int| 0 <= w < n && !#[trigger] done[w] ==> pending(covers, consumed, w, covers.len() as int) > 0,
        0 <= v < n,
        rank[v] <= k,
    ensures
        done[v],
    decreases k,
{
    if !done[v] {
        assert(pending(covers, consumed, v, covers.len() as int) > 0);
        if forall|c: int| 0 <= c < covers.len() && covers[c].to == v ==> #[trigger] consumed[c] {
            lemma_pending_all(covers, consumed, v, covers.len() as int);
        }
        let c = choose|c: int| 0 <= c < covers.len() && covers[c].to == v && !#[trigger] consumed[c];
        let u = covers[c].from as int;
        assert(rank[u] < rank[v]);
        if k > 0 {
            lemma_all_processed(covers, rank, n, done, consumed, k - 1, u);
        }
    }
}

/// Following longest chains upward from `v` reaches an element whose height
/// is at least `h[v] + d[v]`.
proof fn lemma_height_plus_depth(covers: Seq<Edge>, n: int, h: Seq<usize>, d: Seq<usize>, v: int)
    requires
        edges_within(covers, n),
        is_height(covers, n, h),
        is_depth(covers, n, d),
        0 <= v < n,
    ensures
        h[v] + d[v] <= max_entry(h),
    decreases d[v],
{
    if d[v] == 0 {
        lemma_max_entry(h, v);
    } else {
        let c = choose|c: int| 0 <= c < covers.len() && (#[trigger] covers[c]).from == v && d[v] == d[covers[c].to as int] + 1;
        let w = covers[c].to as int;
        assert(h[w] >= h[v] + 1);
        lemma_height_plus_depth(covers, n, h, d, w);
    }
}

/// The largest entry is below any bound on all entries.
proof fn lemma_max_entry_below(s: Seq<usize>, bound: int)
    requires
        bound > 0,
        forall|i: int| 0 <= i < s.len() ==> #[trigger] s[i] < bound,
    ensures
        max_entry(s) < bound,
    decreases s.len(),
{
    if s.len() > 0 {
        assert forall|i: int| 0 <= i < s.drop_last().len() implies #[trigger] s.drop_last()[i] < bound by {
            assert(s.drop_last()[i] == s[i]);
        }
        lemma_max_entry_below(s.drop_last(), bound);
        assert(s[s.len() - 1] < bound);
    }
}

/// Every entry is at most the largest.
proof fn lemma_max_entry(s: Seq<usize>, i: int)
    requires
        0 <= i < s.len(),
    ensures
        s[i] <= max_entry(s),
        max_entry(s) >= 0,
    decreases s.len(),
{
    if i < s.len() - 1 {
        lemma_max_entry(s.drop_last(), i);
    } else if s.len() > 1 {
        lemma_max_entry(s.drop_last(), 0);
    }
}

/// `lists[u]` holds, in increasing order, exactly the covers before `k`
/// that start at `u`; `slot[c]` is the place of cover `c` in its list.
pub open spec fn cover_lists(covers: Seq<Edge>, lists: Seq<Seq<usize>>, slot: Seq<int>, n: int, k: int) -> bool {
    &&& lists.len() == n
    &&& slot.len() == covers.len()
    &&& forall|u: int, i: int|
        0 <= u < n && 0 <= i < lists[u].len() ==> (#[trigger] lists[u][i]) < k && covers[lists[u][i] as int].from == u
    &&& forall|u: int, i: int, j: int|
        0 <= u < n && 0 <= i < j < lists[u].len() ==> #[trigger] lists[u][i] < #[trigger] lists[u][j]
    &&& forall|c: int|
        0 <= c < k ==> 0 <= #[trigger] slot[c] < lists[covers[c].from as int].len() && lists[covers[c].from as int][slot[c]]
            == c
}

/// For each element, the number of covers into it and the list of covers
/// out of it.
fn build_cover_lists(size: usize, covers: &[Edge]) -> (r: (Vec<usize>, Vec<Vec<usize>>, Ghost<Seq<int>>))
    requires
        edges_within(covers@, size as int),
    ensures
        r.0@.len() == size,
        forall|v: int| 0 <= v < size ==> #[trigger] r.0@[v] == pending(covers@, Seq::new(covers@.len(), |c: int| false), v, covers@.len() as int),
        cover_lists(covers@, seqs_of(r.1@), r.2@, size as int, covers@.len() as int),
{
    let ghost none = Seq::new(covers@.len(), |c: int| false);
    let mut remaining: Vec<usize> = Vec::new();
    let mut lists: Vec<Vec<usize>> = Vec::new();
    let mut v: usize = 0;
    while v < size
        invariant
            v <= size,
            remaining@.len() == v,
            lists@.len() == v,
            forall|w: int| 0 <= w < v ==> #[trigger] remaining@[w] == 0,
            forall|w: int| 0 <= w < v ==> (#[trigger] lists@[w])@.len() == 0,
        decreases size - v,
    {
        remaining.push(0);
        lists.push(Vec::new());
        v += 1;
    }
    let ghost mut slot: Seq<int> = Seq::new(covers@.len(), |c: int| 0);
    assert(cover_lists(covers@, seqs_of(lists@), slot, size as int, 0));
    let mut c: usize = 0;
    while c < covers.len()
        invariant
            edges_within(covers@, size as int),
            none == Seq::new(covers@.len(), |c: int| false),
            c <= covers@.len(),
            remaining@.len() == size,
            lists@.len() == size,
            forall|w: int| 0 <= w < size ==> #[trigger] remaining@[w] == pending(covers@, none, w, c as int),
            forall|w: int| 0 <= w < size ==> #[trigger] remaining@[w] <= c,
            cover_lists(covers@, seqs_of(lists@), slot, size as int, c as int),
        decreases covers@.len() - c,
    {
        let edge = covers[c];
        let ghost before = seqs_of(lists@);
        let count = remaining[edge.to];
        remaining.set(edge.to, count + 1);
        push_into(&mut lists, edge.from, c);
        proof {
            slot = slot.update(c as int, before[edge.from as int].len() as int);
            let after = seqs_of(lists@);
            assert forall|u: int, i: int|
                0 <= u < size && 0 <= i < after[u].len() implies (#[trigger] after[u][i]) < c + 1 && covers@[after[u][i] as int].from
                == u by {
                if u == edge.from && i == before[u].len() {
                } else {
                    assert(after[u][i] == before[u][i]);
                }
            }
            assert forall|u: int, i: int, j: int|
                0 <= u < size && 0 <= i < j < after[u].len() implies #[trigger] after[u][i] < #[trigger] after[u][j] by {
                if u == edge.from && j == before[u].len() {
                    assert(before[u][i] < c);
                } else {
                    assert(after[u][i] == before[u][i]);
                    assert(after[u][j] == before[u][j]);
                }
            }
            assert forall|d: int| 0 <= d < c + 1 implies 0 <= #[trigger] slot[d] < after[covers@[d].from as int].len()
                && after[covers@[d].from as int][slot[d]] == d by {
                if d < c {
                    assert(before[covers@[d].from as int][slot[d]] == d);
                }
            }
        }
        c += 1;
    }
    (remaining, lists, Ghost(slot))
}

/// The counting part of the topological pass: a cover is consumed once its
/// lower end is done (for the element `active` being processed, once its
/// place in the list is below `j`), `remaining` counts unconsumed covers
/// into each element, and `ready` holds exactly the unprocessed elements
/// with none left.
#[verifier::opaque]
pub open spec fn kahn_counts(
    covers: Seq<Edge>,
    n: int,
    slot: Seq<int>,
    remaining: Seq<usize>,
    ready: Seq<usize>,
    done: Seq<bool>,
    consumed: Seq<bool>,
    ready_slot: Seq<int>,
    active: int,
    j: int,
) -> bool {
    let m = covers.len() as int;
    &&& remaining.len() == n && done.len() == n && ready_slot.len() == n && consumed.len() == m
    &&& forall|v: int| 0 <= v < n ==> #[trigger] remaining[v] == pending(covers, consumed, v, m)
    &&& forall|c: int|
        0 <= c < m ==> #[trigger] consumed[c] == (done[covers[c].from as int] && (covers[c].from != active || slot[c]
            < j))
    &&& forall|i: int| 0 <= i < ready.len() ==> (#[trigger] ready[i]) < n && !done[ready[i] as int] && remaining[ready[i] as int] == 0
    &&& forall|i: int, k: int| 0 <= i < k < ready.len() ==> #[trigger] ready[i] != #[trigger] ready[k]
    &&& forall|v: int|
        0 <= v < n && !done[v] && #[trigger] remaining[v] == 0 ==> 0 <= ready_slot[v] < ready.len() && ready[ready_slot[v]]
            == v
    &&& forall|v: int| 0 <= v < n && #[trigger] done[v] ==> remaining[v] == 0
}

/// The order part: `done` elements are `order`, at `pos`, and every cover
/// into a done element comes from an earlier done element.
#[verifier::opaque]
pub open spec fn kahn_order(covers: Seq<Edge>, n: int, order: Seq<usize>, done: Seq<bool>, pos: Seq<int>) -> bool {
    &&& done.len() == n && pos.len() == n
    &&& forall|i: int| 0 <= i < order.len() ==> (#[trigger] order[i]) < n && done[order[i] as int] && pos[order[i] as int] == i
    &&& forall|v: int| 0 <= v < n && #[trigger] done[v] ==> 0 <= pos[v] < order.len() && order[pos[v]] == v
    &&& forall|c: int|
        0 <= c < covers.len() && #[trigger] done[covers[c].to as int] ==> done[covers[c].from as int]
            && pos[covers[c].from as int] < pos[covers[c].to as int]
}

/// The height part: `heights` are the longest chains along consumed covers
/// (`attained_by` names a cover that attains each positive height), bounded by the
/// place in the order.
#[verifier::opaque]
pub open spec fn kahn_heights(
    covers: Seq<Edge>,
    n: int,
    order: Seq<usize>,
    heights: Seq<usize>,
    done: Seq<bool>,
    consumed: Seq<bool>,
    pos: Seq<int>,
    attained_by: Seq<int>,
) -> bool {
    let m = covers.len() as int;
    &&& heights.len() == n && attained_by.len() == n
    &&& forall|c: int|
        0 <= c < m && #[trigger] consumed[c] ==> heights[covers[c].to as int] >= heights[covers[c].from as int] + 1
    &&& forall|v: int|
        0 <= v < n && #[trigger] heights[v] != 0 ==> 0 <= attained_by[v] < m && consumed[attained_by[v]] && covers[attained_by[v]].to == v
            && heights[v] == heights[covers[attained_by[v]].from as int] + 1
    &&& forall|v: int| 0 <= v < n && #[trigger] done[v] ==> heights[v] <= pos[v]
    &&& forall|v: int| 0 <= v < n && !#[trigger] done[v] ==> heights[v] <= order.len()
}

/// The state of the topological pass.
pub open spec fn kahn(
    covers: Seq<Edge>,
    n: int,
    lists: Seq<Seq<usize>>,
    slot: Seq<int>,
    remaining: Seq<usize>,
    ready: Seq<usize>,
    order: Seq<usize>,
    heights: Seq<usize>,
    done: Seq<bool>,
    consumed: Seq<bool>,
    pos: Seq<int>,
    ready_slot: Seq<int>,
    attained_by: Seq<int>,
    active: int,
    j: int,
) -> bool {
    &&& remaining.len() == n && done.len() == n && pos.len() == n && heights.len() == n && attained_by.len() == n
        && ready_slot.len() == n && consumed.len() == covers.len() && n <= usize::MAX
    &&& kahn_counts(covers, n, slot, remaining, ready, done, consumed, ready_slot, active, j)
    &&& kahn_order(covers, n, order, done, pos)
    &&& kahn_heights(covers, n, order, heights, done, consumed, pos, attained_by)
    &&& active >= 0 ==> active < n && done[active] && pos[active] == order.len() - 1 && 0 <= j <= lists[active].len()
}

proof fn lemma_pending_positive(covers: Seq<Edge>, consumed: Seq<bool>, v: int, k: int, c: int)
    requires
        0 <= c < k,
        covers[c].to == v,
        !consumed[c],
    ensures
        pending(covers, consumed, v, k) >= 1,
    decreases k,
{
    lemma_pending_zero(covers, consumed, v, k - 1);
    if c < k - 1 {
        lemma_pending_positive(covers, consumed, v, k - 1, c);
    }
}

/// What the counting part tells the others: consumed covers start at done
/// elements; covers into a ready or done element are consumed.
proof fn lemma_counts_facts(
    covers: Seq<Edge>,
    n: int,
    slot: Seq<int>,
    remaining: Seq<usize>,
    ready: Seq<usize>,
    done: Seq<bool>,
    consumed: Seq<bool>,
    ready_slot: Seq<int>,
    active: int,
    j: int,
)
    requires
        kahn_counts(covers, n, slot, remaining, ready, done, consumed, ready_slot, active, j),
    ensures
        forall|c: int| 0 <= c < covers.len() && #[trigger] consumed[c] ==> done[covers[c].from as int],
        forall|c: int|
            0 <= c < covers.len() && 0 <= covers[c].to < n && remaining[covers[c].to as int] == 0 ==> #[trigger] consumed[c],
        forall|i: int| 0 <= i < ready.len() ==> (#[trigger] ready[i]) < n && !done[ready[i] as int] && remaining[ready[i] as int] == 0,
        forall|v: int| 0 <= v < n && #[trigger] done[v] ==> remaining[v] == 0,
        remaining.len() == n,
        done.len() == n,
        active == -1 ==> forall|c: int| 0 <= c < covers.len() ==> #[trigger] consumed[c] == done[covers[c].from as int],
{
    reveal(kahn_counts);
    let m = covers.len() as int;
    assert forall|c: int|
        0 <= c < m && 0 <= covers[c].to < n && remaining[covers[c].to as int] == 0 implies #[trigger] consumed[c] by {
        lemma_pending_zero(covers, consumed, covers[c].to as int, m);
    }
}

/// Processing starts with nothing done and the elements without covers
/// into them ready.
proof fn lemma_kahn_start(
    covers: Seq<Edge>,
    n: int,
    lists: Seq<Seq<usize>>,
    slot: Seq<int>,
    remaining: Seq<usize>,
    ready: Seq<usize>,
    ready_slot: Seq<int>,
)
    requires
        0 <= n <= usize::MAX,
        edges_within(covers, n),
        remaining.len() == n,
        ready_slot.len() == n,
        forall|v: int| 0 <= v < n ==> #[trigger] remaining[v] == pending(covers, Seq::new(covers.len(), |c: int| false), v, covers.len() as int),
        forall|i: int| 0 <= i < ready.len() ==> (#[trigger] ready[i]) < n && remaining[ready[i] as int] == 0,
        forall|i: int, k: int| 0 <= i < k < ready.len() ==> #[trigger] ready[i] != #[trigger] ready[k],
        forall|v: int|
            0 <= v < n && #[trigger] remaining[v] == 0 ==> 0 <= ready_slot[v] < ready.len() && ready[ready_slot[v]] == v,
    ensures
        kahn(
            covers,
            n,
            lists,
            slot,
            remaining,
            ready,
            Seq::empty(),
            Seq::new(n as nat, |v: int| 0usize),
            Seq::new(n as nat, |v: int| false),
            Seq::new(covers.len(), |c: int| false),
            Seq::new(n as nat, |v: int| 0int),
            ready_slot,
            Seq::new(n as nat, |v: int| 0int),
            -1,
            0,
        ),
{
    reveal(kahn_counts);
    reveal(kahn_order);
    reveal(kahn_heights);
}

/// Taking the last ready element marks it done and starts on its covers.
proof fn lemma_kahn_pop(
    covers: Seq<Edge>,
    n: int,
    lists: Seq<Seq<usize>>,
    slot: Seq<int>,
    remaining: Seq<usize>,
    ready: Seq<usize>,
    order: Seq<usize>,
    heights: Seq<usize>,
    done: Seq<bool>,
    consumed: Seq<bool>,
    pos: Seq<int>,
    ready_slot: Seq<int>,
    attained_by: Seq<int>,
)
    requires
        edges_within(covers, n),
        cover_lists(covers, lists, slot, n, covers.len() as int),
        kahn(covers, n, lists, slot, remaining, ready, order, heights, done, consumed, pos, ready_slot, attained_by, -1, 0),
        ready.len() > 0,
    ensures
        ({
            let id = ready.last();
            kahn(
                covers,
                n,
                lists,
                slot,
                remaining,
                ready.drop_last(),
                order.push(id),
                heights,
                done.update(id as int, true),
                consumed,
                pos.update(id as int, order.len() as int),
                ready_slot,
                attained_by,
                id as int,
                0,
            )
        }),
        ready.last() < n,
        order.len() + 1 <= n,
{
    lemma_counts_facts(covers, n, slot, remaining, ready, done, consumed, ready_slot, -1, 0);
    let id = ready.last() as int;
    assert(ready[ready.len() - 1] < n);
    assert(!done[id]);
    assert forall|c: int| 0 <= c < covers.len() && covers[c].to == id implies done[(#[trigger] covers[c]).from as int] by {
        assert(consumed[c]);
    }
    lemma_pop_counts(covers, n, lists, slot, remaining, ready, done, consumed, ready_slot);
    lemma_pop_order(covers, n, order, done, pos, id, remaining);
    assert(kahn_order(covers, n, order.push(id as usize), done.update(id, true), pos.update(id, order.len() as int)));
    lemma_pop_heights(covers, n, order, heights, done, consumed, pos, attained_by, id);
}

proof fn lemma_pop_counts(
    covers: Seq<Edge>,
    n: int,
    lists: Seq<Seq<usize>>,
    slot: Seq<int>,
    remaining: Seq<usize>,
    ready: Seq<usize>,
    done: Seq<bool>,
    consumed: Seq<bool>,
    ready_slot: Seq<int>,
)
    requires
        edges_within(covers, n),
        cover_lists(covers, lists, slot, n, covers.len() as int),
        n <= usize::MAX,
        kahn_counts(covers, n, slot, remaining, ready, done, consumed, ready_slot, -1, 0),
        ready.len() > 0,
    ensures
        kahn_counts(
            covers,
            n,
            slot,
            remaining,
            ready.drop_last(),
            done.update(ready.last() as int, true),
            consumed,
            ready_slot,
            ready.last() as int,
            0,
        ),
{
    reveal(kahn_counts);
    let id = ready.last() as int;
    let m = covers.len() as int;
    let new_ready = ready.drop_last();
    let new_done = done.update(id, true);
    assert(ready[ready.len() - 1] < n);
    assert(!done[id]);
    assert forall|v: int|
        0 <= v < n && !new_done[v] && #[trigger] remaining[v] == 0 implies 0 <= ready_slot[v] < new_ready.len()
        && new_ready[ready_slot[v]] == v by {
        assert(ready[ready_slot[v]] == v);
    }
    assert forall|i: int, k: int| 0 <= i < k < new_ready.len() implies #[trigger] new_ready[i] != #[trigger] new_ready[k] by {
        assert(ready[i] != ready[k]);
    }
    assert forall|i: int| 0 <= i < new_ready.len() implies (#[trigger] new_ready[i]) < n && !new_done[new_ready[i] as int]
        && remaining[new_ready[i] as int] == 0 by {
        assert(ready[i] != ready[ready.len() - 1]);
    }
    assert forall|c: int| 0 <= c < m implies #[trigger] consumed[c] == (new_done[covers[c].from as int] && (covers[c].from
        != id || slot[c] < 0)) by {
        assert(covers[c].from < n);
        assert(slot[c] >= 0);
        if covers[c].from == id {
            assert(!done[id]);
        }
    }
}

proof fn lemma_pop_order(
    covers: Seq<Edge>,
    n: int,
    order: Seq<usize>,
    done: Seq<bool>,
    pos: Seq<int>,
    id: int,
    remaining: Seq<usize>,
)
    requires
        edges_within(covers, n),
        kahn_order(covers, n, order, done, pos),
        0 <= id < n <= usize::MAX,
        done.len() == n,
        pos.len() == n,
        !done[id],
        forall|c: int| 0 <= c < covers.len() && covers[c].to == id ==> done[(#[trigger] covers[c]).from as int],
    ensures
        kahn_order(covers, n, order.push(id as usize), done.update(id, true), pos.update(id, order.len() as int)),
        order.len() + 1 <= n,
{
    reveal(kahn_order);
    let new_order = order.push(id as usize);
    assert forall|i: int, k: int| 0 <= i < k < new_order.len() implies new_order[i] != new_order[k] by {
        if k == order.len() {
            assert(done[order[i] as int]);
        } else {
            assert(pos[order[i] as int] == i);
            assert(pos[order[k] as int] == k);
        }
    }
    assert forall|i: int| 0 <= i < new_order.len() implies #[trigger] new_order[i] < n by {
        if i < order.len() {
            assert(order[i] < n);
        }
    }
    lemma_distinct_below(new_order, n);
    let new_done = done.update(id, true);
    let new_pos = pos.update(id, order.len() as int);
    assert forall|c: int|
        0 <= c < covers.len() && #[trigger] new_done[covers[c].to as int] implies new_done[covers[c].from as int]
        && new_pos[covers[c].from as int] < new_pos[covers[c].to as int] by {
        let (u, w) = (covers[c].from as int, covers[c].to as int);
        if w == id {
            assert(done[u]);
            assert(pos[u] < order.len());
            assert(u != id);
        } else {
            assert(done[w]);
            assert(done[u] && pos[u] < pos[w]);
            assert(u != id);
        }
    }
    assert forall|i: int| 0 <= i < new_order.len() implies (#[trigger] new_order[i]) < n && new_done[new_order[i] as int]
        && new_pos[new_order[i] as int] == i by {
        if i < order.len() {
            assert(done[order[i] as int]);
        }
    }
}

proof fn lemma_pop_heights(
    covers: Seq<Edge>,
    n: int,
    order: Seq<usize>,
    heights: Seq<usize>,
    done: Seq<bool>,
    consumed: Seq<bool>,
    pos: Seq<int>,
    attained_by: Seq<int>,
    id: int,
)
    requires
        kahn_heights(covers, n, order, heights, done, consumed, pos, attained_by),
        0 <= id < n,
        done.len() == n,
        pos.len() == n,
        !done[id],
    ensures
        kahn_heights(
            covers,
            n,
            order.push(id as usize),
            heights,
            done.update(id, true),
            consumed,
            pos.update(id, order.len() as int),
            attained_by,
        ),
{
    reveal(kahn_heights);
}

/// Consuming the cover at place `j` of the active element's list lowers
/// the count of its upper end, raises its height if needed, and makes it
/// ready once nothing is left.
proof fn lemma_kahn_consume(
    covers: Seq<Edge>,
    n: int,
    lists: Seq<Seq<usize>>,
    slot: Seq<int>,
    remaining: Seq<usize>,
    ready: Seq<usize>,
    order: Seq<usize>,
    heights: Seq<usize>,
    done: Seq<bool>,
    consumed: Seq<bool>,
    pos: Seq<int>,
    ready_slot: Seq<int>,
    attained_by: Seq<int>,
    active: int,
    j: int,
)
    requires
        edges_within(covers, n),
        cover_lists(covers, lists, slot, n, covers.len() as int),
        kahn(covers, n, lists, slot, remaining, ready, order, heights, done, consumed, pos, ready_slot, attained_by, active, j),
        active >= 0,
        j < lists[active].len(),
    ensures
        ({
            let c = lists[active][j] as int;
            let upper = covers[c].to as int;
            let count = (remaining[upper] - 1) as usize;
            let raised = heights[active] + 1 > heights[upper];
            let new_heights = if raised {
                heights.update(upper, (heights[active] + 1) as usize)
            } else {
                heights
            };
            let new_attained_by = if raised {
                attained_by.update(upper, c)
            } else {
                attained_by
            };
            let new_ready = if count == 0 {
                ready.push(upper as usize)
            } else {
                ready
            };
            let new_ready_slot = if count == 0 {
                ready_slot.update(upper, ready.len() as int)
            } else {
                ready_slot
            };
            &&& remaining[upper] >= 1
            &&& upper < n
            &&& upper != active
            &&& heights[active] < n
            &&& kahn(
                covers,
                n,
                lists,
                slot,
                remaining.update(upper, count),
                new_ready,
                order,
                new_heights,
                done,
                consumed.update(c, true),
                pos,
                new_ready_slot,
                new_attained_by,
                active,
                j + 1,
            )
        }),
{
    let m = covers.len() as int;
    let c = lists[active][j] as int;
    assert(c < m && covers[c].from == active);
    let upper = covers[c].to as int;
    assert(upper < n);
    assert(slot[c] == j) by {
        let i = slot[c];
        assert(lists[active][i] == c);
        if i < j {
            assert(lists[active][i] < lists[active][j]);
        } else if i > j {
            assert(lists[active][j] < lists[active][i]);
        }
    }
    lemma_counts_facts(covers, n, slot, remaining, ready, done, consumed, ready_slot, active, j);
    lemma_consume_counts(covers, n, lists, slot, remaining, ready, done, consumed, ready_slot, active, j);
    assert(order.len() <= n) by {
        reveal(kahn_order);
        assert forall|i: int, k: int| 0 <= i < k < order.len() implies order[i] != order[k] by {
            assert(pos[order[i] as int] == i);
            assert(pos[order[k] as int] == k);
        }
        assert forall|i: int| 0 <= i < order.len() implies #[trigger] order[i] < n by {}
        lemma_distinct_below(order, n);
    }
    lemma_consume_heights(covers, n, order, heights, done, consumed, pos, attained_by, active, c);
    reveal(kahn_heights);
}

proof fn lemma_consume_counts(
    covers: Seq<Edge>,
    n: int,
    lists: Seq<Seq<usize>>,
    slot: Seq<int>,
    remaining: Seq<usize>,
    ready: Seq<usize>,
    done: Seq<bool>,
    consumed: Seq<bool>,
    ready_slot: Seq<int>,
    active: int,
    j: int,
)
    requires
        edges_within(covers, n),
        cover_lists(covers, lists, slot, n, covers.len() as int),
        kahn_counts(covers, n, slot, remaining, ready, done, consumed, ready_slot, active, j),
        0 <= active < n,
        done[active],
        0 <= j < lists[active].len(),
        slot[lists[active][j] as int] == j,
    ensures
        ({
            let c = lists[active][j] as int;
            let upper = covers[c].to as int;
            let count = (remaining[upper] - 1) as usize;
            let new_ready = if count == 0 {
                ready.push(upper as usize)
            } else {
                ready
            };
            let new_ready_slot = if count == 0 {
                ready_slot.update(upper, ready.len() as int)
            } else {
                ready_slot
            };
            &&& remaining[upper] >= 1
            &&& !done[upper]
            &&& kahn_counts(
                covers,
                n,
                slot,
                remaining.update(upper, count),
                new_ready,
                done,
                consumed.update(c, true),
                new_ready_slot,
                active,
                j + 1,
            )
        }),
{
    reveal(kahn_counts);
    let m = covers.len() as int;
    let c = lists[active][j] as int;
    let upper = covers[c].to as int;
    assert(!consumed[c]);
    lemma_pending_positive(covers, consumed, upper, m, c);
    let new_consumed = consumed.update(c, true);
    let count = (remaining[upper] - 1) as usize;
    let new_remaining = remaining.update(upper, count);
    assert forall|v: int| 0 <= v < n implies #[trigger] new_remaining[v] == pending(covers, new_consumed, v, m) by {
        lemma_pending_consume(covers, consumed, c, v, m);
    }
    assert forall|d: int| 0 <= d < m implies #[trigger] new_consumed[d] == (done[covers[d].from as int] && (covers[d].from
        != active || slot[d] < j + 1)) by {
        if d != c && covers[d].from == active {
            assert(lists[active][slot[d]] == d);
            if slot[d] == j {
                assert(lists[active][j] == d);
            }
        }
    }
    let new_ready = if count == 0 {
        ready.push(upper as usize)
    } else {
        ready
    };
    let new_ready_slot = if count == 0 {
        ready_slot.update(upper, ready.len() as int)
    } else {
        ready_slot
    };
    assert forall|i: int, k: int| 0 <= i < k < new_ready.len() implies #[trigger] new_ready[i] != #[trigger] new_ready[k] by {
        if k == ready.len() {
            assert(remaining[ready[i] as int] == 0);
        } else {
            assert(ready[i] != ready[k]);
        }
    }
    assert forall|i: int| 0 <= i < new_ready.len() implies (#[trigger] new_ready[i]) < n && !done[new_ready[i] as int]
        && new_remaining[new_ready[i] as int] == 0 by {
        if i < ready.len() {
            assert(remaining[ready[i] as int] == 0);
        }
    }
    assert forall|v: int|
        0 <= v < n && !done[v] && #[trigger] new_remaining[v] == 0 implies 0 <= new_ready_slot[v] < new_ready.len()
        && new_ready[new_ready_slot[v]] == v by {
        if v != upper {
            assert(remaining[v] == 0);
        }
    }
}

proof fn lemma_consume_heights(
    covers: Seq<Edge>,
    n: int,
    order: Seq<usize>,
    heights: Seq<usize>,
    done: Seq<bool>,
    consumed: Seq<bool>,
    pos: Seq<int>,
    attained_by: Seq<int>,
    active: int,
    c: int,
)
    requires
        edges_within(covers, n),
        kahn_heights(covers, n, order, heights, done, consumed, pos, attained_by),
        consumed.len() == covers.len(),
        heights.len() == n,
        attained_by.len() == n,
        done.len() == n,
        pos.len() == n,
        order.len() <= n <= usize::MAX,
        0 <= c < covers.len(),
        covers[c].from == active,
        0 <= active < n,
        done[active],
        pos[active] == order.len() - 1,
        !done[covers[c].to as int],
        forall|d: int| 0 <= d < covers.len() && #[trigger] consumed[d] ==> done[covers[d].from as int],
    ensures
        ({
            let upper = covers[c].to as int;
            let raised = heights[active] + 1 > heights[upper];
            let new_heights = if raised {
                heights.update(upper, (heights[active] + 1) as usize)
            } else {
                heights
            };
            let new_attained_by = if raised {
                attained_by.update(upper, c)
            } else {
                attained_by
            };
            &&& heights[active] < order.len()
            &&& kahn_heights(covers, n, order, new_heights, done, consumed.update(c, true), pos, new_attained_by)
        }),
{
    reveal(kahn_heights);
    let upper = covers[c].to as int;
    let m = covers.len() as int;
    let raised = heights[active] + 1 > heights[upper];
    let new_heights = if raised {
        heights.update(upper, (heights[active] + 1) as usize)
    } else {
        heights
    };
    let new_attained_by = if raised {
        attained_by.update(upper, c)
    } else {
        attained_by
    };
    let new_consumed = consumed.update(c, true);
    assert(upper != active);
    assert forall|d: int|
        0 <= d < m && #[trigger] new_consumed[d] implies new_heights[covers[d].to as int] >= new_heights[covers[d].from as int]
        + 1 by {
        let (u, w) = (covers[d].from as int, covers[d].to as int);
        if d == c {
            assert(u == active);
        } else {
            assert(consumed[d]);
            assert(done[u]);
            assert(u != upper);
            assert(heights[w] >= heights[u] + 1);
        }
    }
    assert forall|v: int|
        0 <= v < n && #[trigger] new_heights[v] != 0 implies 0 <= new_attained_by[v] < m && new_consumed[new_attained_by[v]] && covers[new_attained_by[v]].to
        == v && new_heights[v] == new_heights[covers[new_attained_by[v]].from as int] + 1 by {
        if raised && v == upper {
        } else {
            assert(new_heights[v] == heights[v]);
            assert(heights[v] != 0);
            let w = attained_by[v];
            assert(consumed[w]);
            assert(done[covers[w].from as int]);
            assert(covers[w].from != upper);
        }
    }
}

/// At the end of the active element's list all its covers are consumed.
proof fn lemma_kahn_finish(
    covers: Seq<Edge>,
    n: int,
    lists: Seq<Seq<usize>>,
    slot: Seq<int>,
    remaining: Seq<usize>,
    ready: Seq<usize>,
    order: Seq<usize>,
    heights: Seq<usize>,
    done: Seq<bool>,
    consumed: Seq<bool>,
    pos: Seq<int>,
    ready_slot: Seq<int>,
    attained_by: Seq<int>,
    active: int,
)
    requires
        cover_lists(covers, lists, slot, n, covers.len() as int),
        active >= 0,
        kahn(covers, n, lists, slot, remaining, ready, order, heights, done, consumed, pos, ready_slot, attained_by, active, lists[active].len() as int),
    ensures
        kahn(covers, n, lists, slot, remaining, ready, order, heights, done, consumed, pos, ready_slot, attained_by, -1, 0),
{
    reveal(kahn_counts);
}

/// With nothing ready, every element is done and the heights are the
/// longest chains.
proof fn lemma_kahn_end(
    covers: Seq<Edge>,
    n: int,
    lists: Seq<Seq<usize>>,
    slot: Seq<int>,
    remaining: Seq<usize>,
    ready: Seq<usize>,
    order: Seq<usize>,
    heights: Seq<usize>,
    done: Seq<bool>,
    consumed: Seq<bool>,
    pos: Seq<int>,
    ready_slot: Seq<int>,
    attained_by: Seq<int>,
)
    requires
        edges_within(covers, n),
        acyclic(covers, n),
        kahn(covers, n, lists, slot, remaining, ready, order, heights, done, consumed, pos, ready_slot, attained_by, -1, 0),
        ready.len() == 0,
    ensures
        is_height(covers, n, heights),
        order.len() == n,
        pos.len() == n,
        forall|v: int| 0 <= v < n ==> 0 <= #[trigger] pos[v] < n && order[pos[v]] == v,
        forall|i: int| 0 <= i < n ==> (#[trigger] order[i]) < n && pos[order[i] as int] == i,
        forall|c: int| 0 <= c < covers.len() ==> pos[(#[trigger] covers[c]).from as int] < pos[covers[c].to as int],
        forall|v: int| 0 <= v < n ==> #[trigger] heights[v] < n,
{
    let m = covers.len() as int;
    assert forall|v: int| 0 <= v < n implies #[trigger] done[v] by {
        lemma_end_all_done(covers, n, slot, remaining, ready, done, consumed, ready_slot, v);
    }
    lemma_counts_facts(covers, n, slot, remaining, ready, done, consumed, ready_slot, -1, 0);
    assert forall|c: int| 0 <= c < m implies #[trigger] consumed[c] by {
        assert(done[covers[c].from as int]);
    }
    lemma_end_order(covers, n, order, done, pos);
    lemma_end_heights(covers, n, order, heights, done, consumed, pos, attained_by);
}

proof fn lemma_end_all_done(
    covers: Seq<Edge>,
    n: int,
    slot: Seq<int>,
    remaining: Seq<usize>,
    ready: Seq<usize>,
    done: Seq<bool>,
    consumed: Seq<bool>,
    ready_slot: Seq<int>,
    v: int,
)
    requires
        edges_within(covers, n),
        acyclic(covers, n),
        kahn_counts(covers, n, slot, remaining, ready, done, consumed, ready_slot, -1, 0),
        ready.len() == 0,
        0 <= v < n,
    ensures
        done[v],
{
    reveal(kahn_counts);
    let m = covers.len() as int;
    let rank = choose|rank: Seq<nat>| #[trigger] ranked_by(covers, rank, n);
    assert forall|w: int| 0 <= w < n && !#[trigger] done[w] implies pending(covers, consumed, w, m) > 0 by {
        lemma_pending_zero(covers, consumed, w, m);
        if remaining[w] == 0 {
            assert(0 <= ready_slot[w] < ready.len());
        }
    }
    lemma_all_processed(covers, rank, n, done, consumed, rank[v] as int, v);
}

proof fn lemma_end_order(covers: Seq<Edge>, n: int, order: Seq<usize>, done: Seq<bool>, pos: Seq<int>)
    requires
        edges_within(covers, n),
        kahn_order(covers, n, order, done, pos),
        n <= usize::MAX,
        forall|v: int| 0 <= v < n ==> #[trigger] done[v],
    ensures
        order.len() == n,
        pos.len() == n,
        forall|v: int| 0 <= v < n ==> 0 <= #[trigger] pos[v] < n && order[pos[v]] == v,
        forall|i: int| 0 <= i < n ==> (#[trigger] order[i]) < n && pos[order[i] as int] == i,
        forall|c: int| 0 <= c < covers.len() ==> pos[(#[trigger] covers[c]).from as int] < pos[covers[c].to as int],
{
    reveal(kahn_order);
    assert forall|i: int, k: int| 0 <= i < k < order.len() implies order[i] != order[k] by {
        assert(pos[order[i] as int] == i);
        assert(pos[order[k] as int] == k);
    }
    assert forall|i: int| 0 <= i < order.len() implies #[trigger] order[i] < n by {}
    lemma_distinct_below(order, n);
    let t = Seq::new(n as nat, |v: int| pos[v] as usize);
    assert forall|v: int, w: int| 0 <= v < w < n implies t[v] != t[w] by {
        assert(done[v] && done[w]);
        assert(0 <= pos[v] < order.len() && 0 <= pos[w] < order.len());
        assert(order[pos[v]] == v);
        assert(order[pos[w]] == w);
    }
    assert forall|v: int| 0 <= v < n implies #[trigger] t[v] < order.len() by {
        assert(done[v]);
    }
    lemma_distinct_below(t, order.len() as int);
    assert forall|c: int| 0 <= c < covers.len() implies pos[(#[trigger] covers[c]).from as int] < pos[covers[c].to as int] by {
        assert(done[covers[c].to as int]);
    }
    assert forall|v: int| 0 <= v < n implies 0 <= #[trigger] pos[v] < n && order[pos[v]] == v by {
        assert(done[v]);
    }
}

proof fn lemma_end_heights(
    covers: Seq<Edge>,
    n: int,
    order: Seq<usize>,
    heights: Seq<usize>,
    done: Seq<bool>,
    consumed: Seq<bool>,
    pos: Seq<int>,
    attained_by: Seq<int>,
)
    requires
        kahn_heights(covers, n, order, heights, done, consumed, pos, attained_by),
        forall|v: int| 0 <= v < n ==> #[trigger] done[v],
        forall|c: int| 0 <= c < covers.len() ==> #[trigger] consumed[c],
        order.len() == n,
        pos.len() == n,
        forall|v: int| 0 <= v < n ==> 0 <= #[trigger] pos[v] < n,
    ensures
        is_height(covers, n, heights),
        forall|v: int| 0 <= v < n ==> #[trigger] heights[v] < n,
{
    reveal(kahn_heights);
    let m = covers.len() as int;
    assert forall|c: int| 0 <= c < m implies heights[(#[trigger] covers[c]).to as int] >= heights[covers[c].from as int] + 1 by {
        assert(consumed[c]);
    }
    assert forall|v: int| 0 <= v < n implies #[trigger] heights[v] == 0 || exists|c: int|
        0 <= c < m && (#[trigger] covers[c]).to == v && heights[v] == heights[covers[c].from as int] + 1 by {
        if heights[v] != 0 {
            let c = attained_by[v];
            assert(covers[c].to == v);
        }
    }
    assert forall|v: int| 0 <= v < n implies #[trigger] heights[v] < n by {
        assert(done[v]);
    }
}

/// The depth pass from the end of the order back to place `k`: elements at
/// place `k` or later have their longest chains upward (`attained_by`
/// names a cover that attains each positive depth).
pub open spec fn depths_from(
    covers: Seq<Edge>,
    n: int,
    pos: Seq<int>,
    depths: Seq<usize>,
    attained_by: Seq<int>,
    k: int,
) -> bool {
    &&& depths.len() == n
    &&& attained_by.len() == n
    &&& forall|c: int|
        0 <= c < covers.len() && pos[(#[trigger] covers[c]).from as int] >= k ==> depths[covers[c].from as int]
            >= depths[covers[c].to as int] + 1
    &&& forall|v: int|
        0 <= v < n && pos[v] >= k && #[trigger] depths[v] != 0 ==> 0 <= attained_by[v] < covers.len()
            && covers[attained_by[v]].from == v && depths[v] == depths[covers[attained_by[v]].to as int] + 1
    &&& forall|v: int| 0 <= v < n && pos[v] >= k ==> #[trigger] depths[v] + pos[v] < n
}

/// The longest chain of covers starting at each element, computed from the
/// end of a topological order.
fn longest_depths(
    size: usize,
    covers: &[Edge],
    lists: &Vec<Vec<usize>>,
    order: &Vec<usize>,
    Ghost(slot): Ghost<Seq<int>>,
    Ghost(pos): Ghost<Seq<int>>,
) -> (r: Vec<usize>)
    requires
        edges_within(covers@, size as int),
        cover_lists(covers@, seqs_of(lists@), slot, size as int, covers@.len() as int),
        order@.len() == size,
        pos.len() == size,
        forall|v: int| 0 <= v < size ==> 0 <= #[trigger] pos[v] < size && order@[pos[v]] == v,
        forall|i: int| 0 <= i < size ==> (#[trigger] order@[i]) < size && pos[order@[i] as int] == i,
        forall|c: int| 0 <= c < covers@.len() ==> pos[(#[trigger] covers@[c]).from as int] < pos[covers@[c].to as int],
    ensures
        is_depth(covers@, size as int, r@),
{
    let n = size;
    let ghost ls = seqs_of(lists@);
    let mut depths: Vec<usize> = Vec::new();
    let mut v: usize = 0;
    while v < n
        invariant
            v <= n,
            depths@.len() == v,
            forall|w: int| 0 <= w < v ==> #[trigger] depths@[w] == 0,
        decreases n - v,
    {
        depths.push(0);
        v += 1;
    }
    let ghost mut attained_by: Seq<int> = Seq::new(n as nat, |w: int| 0int);
    let mut k: usize = n;
    while k > 0
        invariant
            k <= n,
            edges_within(covers@, n as int),
            cover_lists(covers@, ls, slot, n as int, covers@.len() as int),
            ls == seqs_of(lists@),
            order@.len() == n,
            pos.len() == n,
            forall|w: int| 0 <= w < n ==> 0 <= #[trigger] pos[w] < n && order@[pos[w]] == w,
            forall|i: int| 0 <= i < n ==> (#[trigger] order@[i]) < n && pos[order@[i] as int] == i,
            forall|c: int| 0 <= c < covers@.len() ==> pos[(#[trigger] covers@[c]).from as int] < pos[covers@[c].to as int],
            depths_from(covers@, n as int, pos, depths@, attained_by, k as int),
        decreases k,
    {
        let id = order[k - 1];
        assert(pos[id as int] == k - 1);
        let list = lists[id].clone();
        assert(list@ == ls[id as int]);
        assert forall|i: int| 0 <= i < list@.len() implies (#[trigger] list@[i]) < covers@.len() && covers@[list@[i] as int].from == id by {
            assert(ls[id as int][i] == list@[i]);
        }
        let mut best: usize = 0;
        let ghost mut best_cover: int = 0;
        let mut j: usize = 0;
        while j < list.len()
            invariant
                0 < k <= n,
                id < n,
                pos[id as int] == k - 1,
                list@ == ls[id as int],
                edges_within(covers@, n as int),
                forall|i: int| 0 <= i < list@.len() ==> (#[trigger] list@[i]) < covers@.len() && covers@[list@[i] as int].from == id,
                pos.len() == n,
                depths@.len() == n,
                forall|c: int| 0 <= c < covers@.len() ==> pos[(#[trigger] covers@[c]).from as int] < pos[covers@[c].to as int],
                forall|w: int| 0 <= w < n && pos[w] >= k ==> #[trigger] depths@[w] + pos[w] < n,
                j <= list@.len(),
                forall|i: int| 0 <= i < j ==> best >= depths@[covers@[#[trigger] list@[i] as int].to as int] + 1,
                best == 0 || (0 <= best_cover < covers@.len() && covers@[best_cover].from == id && best == depths@[covers@[best_cover].to as int] + 1),
                best + pos[id as int] < n,
            decreases list@.len() - j,
        {
            let c = list[j];
            assert(c < covers@.len() && covers@[c as int].from == id);
            let upper = covers[c].to;
            assert(pos[covers@[c as int].from as int] < pos[covers@[c as int].to as int]);
            assert(pos[upper as int] > pos[id as int]);
            assert(depths@[upper as int] + pos[upper as int] < n);
            if depths[upper] + 1 > best {
                best = depths[upper] + 1;
                proof {
                    best_cover = c as int;
                }
            }
            j += 1;
        }
        let ghost before = depths@;
        depths.set(id, best);
        proof {
            if best != 0 {
                attained_by = attained_by.update(id as int, best_cover);
            }
            assert forall|c: int|
                0 <= c < covers@.len() && pos[(#[trigger] covers@[c]).from as int] >= k - 1 implies depths@[covers@[c].from as int]
                >= depths@[covers@[c].to as int] + 1 by {
                let (u, w) = (covers@[c].from as int, covers@[c].to as int);
                assert(pos[u] < pos[w]);
                assert(w != id);
                if u == id {
                    let i = slot[c];
                    assert(ls[id as int][i] == c);
                    assert(best >= before[covers@[list@[i] as int].to as int] + 1);
                } else {
                    assert(pos[u] >= k);
                }
            }
            assert forall|w: int|
                0 <= w < n && pos[w] >= k - 1 && #[trigger] depths@[w] != 0 implies 0 <= attained_by[w] < covers@.len()
                && covers@[attained_by[w]].from == w && depths@[w] == depths@[covers@[attained_by[w]].to as int] + 1 by {
                if w == id {
                    assert(pos[covers@[best_cover].to as int] > pos[id as int]);
                } else {
                    assert(pos[w] >= k);
                    let c = attained_by[w];
                    assert(pos[covers@[c].to as int] > pos[w]);
                }
            }
            assert forall|w: int| 0 <= w < n && pos[w] >= k - 1 implies #[trigger] depths@[w] + pos[w] < n by {
                if w != id {
                    assert(pos[w] >= k);
                }
            }
        }
        k -= 1;
    }
    proof {
        assert forall|c: int| 0 <= c < covers@.len() implies depths@[(#[trigger] covers@[c]).from as int] >= depths@[covers@[c].to as int]
            + 1 by {
            assert(pos[covers@[c].from as int] >= 0);
        }
        assert forall|w: int| 0 <= w < n implies #[trigger] depths@[w] == 0 || exists|c: int|
            0 <= c < covers@.len() && (#[trigger] covers@[c]).from == w && depths@[w] == depths@[covers@[c].to as int] + 1 by {
            if depths@[w] != 0 {
                assert(pos[w] >= 0);
                let c = attained_by[w];
                assert(covers@[c].from == w);
            }
        }
    }
    depths
}

/// Assigns each element its earliest feasible rank (the length of a longest
/// chain of covers ending at it) and twice its centered feasible rank:
/// the earliest rank plus the latest one, `longest - depth`, where `depth`
/// is the length of a longest chain of covers starting at it.
pub fn vertical_levels(size: usize, covers: &[Edge]) -> (r: VerticalLevels)
    requires
        edges_within(covers@, size as int),
        acyclic(covers@, size as int),
        2 * size <= usize::MAX,
    ensures
        is_height(covers@, size as int, r.earliest@),
        r.centered@.len() == size,
        exists|d: Seq<usize>|
            #[trigger] is_depth(covers@, size as int, d) && forall|v: int|
                0 <= v < size ==> r.centered@[v] == r.earliest@[v] + max_entry(r.earliest@) - d[v],
{
    let n = size;
    let (mut remaining, lists, Ghost(slot)) = build_cover_lists(n, covers);
    let ghost ls = seqs_of(lists@);
    let mut ready: Vec<usize> = Vec::new();
    let ghost mut ready_slot: Seq<int> = Seq::new(n as nat, |v: int| 0int);
    let mut v: usize = 0;
    while v < n
        invariant
            v <= n,
            remaining@.len() == n,
            ready_slot.len() == n,
            forall|i: int| 0 <= i < ready@.len() ==> (#[trigger] ready@[i]) < v && remaining@[ready@[i] as int] == 0,
            forall|i: int, k: int| 0 <= i < k < ready@.len() ==> #[trigger] ready@[i] < #[trigger] ready@[k],
            forall|w: int|
                0 <= w < v && #[trigger] remaining@[w] == 0 ==> 0 <= ready_slot[w] < ready@.len() && ready@[ready_slot[w]] == w,
        decreases n - v,
    {
        if remaining[v] == 0 {
            proof {
                ready_slot = ready_slot.update(v as int, ready@.len() as int);
            }
            ready.push(v);
        }
        v += 1;
    }
    let mut order: Vec<usize> = Vec::new();
    let mut heights: Vec<usize> = Vec::new();
    let mut w: usize = 0;
    while w < n
        invariant
            w <= n,
            heights@.len() == w,
            forall|u: int| 0 <= u < w ==> #[trigger] heights@[u] == 0usize,
        decreases n - w,
    {
        heights.push(0);
        w += 1;
    }
    assert(heights@ =~= Seq::new(n as nat, |u: int| 0usize));
    proof {
        assert forall|i: int, k: int| 0 <= i < k < ready@.len() implies #[trigger] ready@[i] != #[trigger] ready@[k] by {}
        lemma_kahn_start(covers@, n as int, ls, slot, remaining@, ready@, ready_slot);
    }
    let ghost mut done: Seq<bool> = Seq::new(n as nat, |u: int| false);
    let ghost mut consumed: Seq<bool> = Seq::new(covers@.len(), |c: int| false);
    let ghost mut pos: Seq<int> = Seq::new(n as nat, |u: int| 0int);
    let ghost mut attained_by: Seq<int> = Seq::new(n as nat, |u: int| 0int);
    assert(order@ =~= Seq::<usize>::empty());
    while ready.len() > 0
        invariant
            edges_within(covers@, n as int),
            cover_lists(covers@, ls, slot, n as int, covers@.len() as int),
            ls == seqs_of(lists@),
            kahn(covers@, n as int, ls, slot, remaining@, ready@, order@, heights@, done, consumed, pos, ready_slot, attained_by, -1, 0),
            order@.len() <= n,
        decreases n - order@.len(),
    {
        proof {
            lemma_kahn_pop(covers@, n as int, ls, slot, remaining@, ready@, order@, heights@, done, consumed, pos, ready_slot, attained_by);
        }
        let ghost before_ready = ready@;
        let id = match ready.pop() {
            Some(id) => id,
            None => 0,
        };
        assert(id == before_ready.last());
        assert(ready@ == before_ready.drop_last());
        proof {
            done = done.update(id as int, true);
            pos = pos.update(id as int, order@.len() as int);
        }
        order.push(id);
        let list = lists[id].clone();
        assert(list@ == ls[id as int]);
        let mut j: usize = 0;
        while j < list.len()
            invariant
                edges_within(covers@, n as int),
                cover_lists(covers@, ls, slot, n as int, covers@.len() as int),
                ls == seqs_of(lists@),
                list@ == ls[id as int],
                id < n,
                j <= list@.len(),
                kahn(covers@, n as int, ls, slot, remaining@, ready@, order@, heights@, done, consumed, pos, ready_slot, attained_by, id as int, j as int),
                order@.len() <= n,
            decreases list@.len() - j,
        {
            proof {
                lemma_kahn_consume(covers@, n as int, ls, slot, remaining@, ready@, order@, heights@, done, consumed, pos, ready_slot, attained_by, id as int, j as int);
            }
            let c = list[j];
            let upper = covers[c].to;
            let count = remaining[upper] - 1;
            remaining.set(upper, count);
            if heights[id] + 1 > heights[upper] {
                let raised = heights[id] + 1;
                heights.set(upper, raised);
                proof {
                    attained_by = attained_by.update(upper as int, c as int);
                }
            }
            proof {
                consumed = consumed.update(c as int, true);
            }
            if count == 0 {
                proof {
                    ready_slot = ready_slot.update(upper as int, ready@.len() as int);
                }
                ready.push(upper);
            }
            j += 1;
        }
        proof {
            lemma_kahn_finish(covers@, n as int, ls, slot, remaining@, ready@, order@, heights@, done, consumed, pos, ready_slot, attained_by, id as int);
        }
    }
    proof {
        lemma_kahn_end(covers@, n as int, ls, slot, remaining@, ready@, order@, heights@, done, consumed, pos, ready_slot, attained_by);
    }
    let depths = longest_depths(n, covers, &lists, &order, Ghost(slot), Ghost(pos));
    let mut longest: usize = 0;
    let mut i: usize = 0;
    while i < n
        invariant
            i <= n,
            heights@.len() == n,
            longest == max_entry(heights@.take(i as int)),
            forall|u: int| 0 <= u < n ==> #[trigger] heights@[u] < n,
        decreases n - i,
    {
        assert(heights@.take(i + 1).drop_last() =~= heights@.take(i as int));
        if heights[i] > longest {
            longest = heights[i];
        }
        i += 1;
    }
    assert(heights@.take(n as int) =~= heights@);
    proof {
        if n > 0 {
            lemma_max_entry_below(heights@, n as int);
        }
    }
    let mut centered: Vec<usize> = Vec::new();
    let mut u: usize = 0;
    while u < n
        invariant
            u <= n,
            2 * n <= usize::MAX,
            heights@.len() == n,
            depths@.len() == n,
            longest == max_entry(heights@),
            longest < n || n == 0,
            is_height(covers@, n as int, heights@),
            is_depth(covers@, n as int, depths@),
            edges_within(covers@, n as int),
            forall|x: int| 0 <= x < n ==> #[trigger] heights@[x] < n,
            centered@.len() == u,
            forall|x: int| 0 <= x < u ==> #[trigger] centered@[x] == heights@[x] + longest - depths@[x],
        decreases n - u,
    {
        proof {
            lemma_height_plus_depth(covers@, n as int, heights@, depths@, u as int);
        }
        centered.push(heights[u] + longest - depths[u]);
        u += 1;
    }
    proof {
        assert(is_depth(covers@, n as int, depths@));
    }
    VerticalLevels { earliest: heights, centered }
}

} // verus!
