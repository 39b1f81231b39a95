//! Selecting the nodes that lie nearest to a point.

use vstd::prelude::*;
use crate::geometry::Point;
use crate::graph::Node;

verus! {

/// `node` lies closer than `dist` to `pos`; a `dist` of zero sets no limit.
pub open spec fn within(pos: Point, node: Node, dist: u64) -> bool {
    dist == 0 || pos.dist2_spec(node.pos) < dist * dist
}

/// The node at index `i` comes before the node at index `j` when both are
/// ordered by distance from `pos`; of two equally distant nodes the one with
/// the lower index comes first.
pub open spec fn nearer(pos: Point, nodes: Seq<Node>, i: int, j: int) -> bool {
    let di = pos.dist2_spec(nodes[i].pos);
    let dj = pos.dist2_spec(nodes[j].pos);
    di < dj || (di == dj && i < j)
}

/// The number of nodes asked for: `n`, or all of them where `n` is zero.
pub open spec fn wanted(nodes: Seq<Node>, n: usize) -> int {
    if n == 0 {
        nodes.len() as int
    } else {
        n as int
    }
}

/// `idx` lists, nearest first, the indices of the `wanted` nearest nodes
/// within `dist` of `pos`, or of all such nodes if there are fewer.
pub open spec fn is_nearest_selection(
    pos: Point,
    nodes: Seq<Node>,
    n: usize,
    dist: u64,
    idx: Seq<int>,
) -> bool {
    &&& idx.len() <= wanted(nodes, n)
    &&& forall|k: int|
        0 <= k < idx.len() ==> 0 <= #[trigger] idx[k] < nodes.len() && within(
            pos,
            nodes[idx[k]],
            dist,
        )
    &&& forall|k1: int, k2: int|
        0 <= k1 < k2 < idx.len() ==> nearer(pos, nodes, #[trigger] idx[k1], #[trigger] idx[k2])
    &&& forall|j: int|
        0 <= j < nodes.len() && within(pos, #[trigger] nodes[j], dist) && !idx.contains(j) ==> {
            &&& idx.len() == wanted(nodes, n)
            &&& forall|k: int| 0 <= k < idx.len() ==> nearer(pos, nodes, #[trigger] idx[k], j)
        }
}

/// The nodes of `nodes` at the indices `idx`, in that order.
pub open spec fn pick_nodes(nodes: Seq<Node>, idx: Seq<int>) -> Seq<Node> {
    Seq::new(idx.len(), |k: int| nodes[idx[k]])
}

/// There is only one nearest selection: two sequences that both qualify are
/// equal.
pub proof fn lemma_nearest_selection_unique(
    pos: Point,
    nodes: Seq<Node>,
    n: usize,
    dist: u64,
    a: Seq<int>,
    b: Seq<int>,
)
    requires
        is_nearest_selection(pos, nodes, n, dist, a),
        is_nearest_selection(pos, nodes, n, dist, b),
    ensures
        a == b,
{
    if a.len() <= b.len() {
        lemma_selection_length(pos, nodes, n, dist, a, b);
    } else {
        lemma_selection_length(pos, nodes, n, dist, b, a);
    }
    lemma_selection_prefix(pos, nodes, n, dist, a, b, a.len() as int);
    assert(a =~= b);
}

/// In a nearest selection whose first `k` entries are those of another, the
/// entry in place `k` of that other comes no earlier than place `k`: it
/// stands in place `k`, or the entry in place `k` is nearer than it.
proof fn lemma_selection_next(
    pos: Point,
    nodes: Seq<Node>,
    n: usize,
    dist: u64,
    a: Seq<int>,
    b: Seq<int>,
    k: int,
)
    requires
        is_nearest_selection(pos, nodes, n, dist, a),
        is_nearest_selection(pos, nodes, n, dist, b),
        0 <= k < a.len(),
        k <= b.len(),
        forall|h: int| 0 <= h < k ==> a[h] == b[h],
    ensures
        k < b.len(),
        a[k] == b[k] || nearer(pos, nodes, b[k], a[k]),
{
    let x = a[k];
    assert(within(pos, nodes[x], dist));
    if b.contains(x) {
        let q = choose|q: int| 0 <= q < b.len() && b[q] == x;
        if q < k {
            // x would stand in a twice
            assert(nearer(pos, nodes, a[q], a[k]));
        } else if q > k {
            assert(nearer(pos, nodes, b[k], b[q]));
        }
    } else if k < b.len() {
        assert(nearer(pos, nodes, b[k], x));
    }
}

/// Two nearest selections agree on their first `m` entries.
proof fn lemma_selection_prefix(
    pos: Point,
    nodes: Seq<Node>,
    n: usize,
    dist: u64,
    a: Seq<int>,
    b: Seq<int>,
    m: int,
)
    requires
        is_nearest_selection(pos, nodes, n, dist, a),
        is_nearest_selection(pos, nodes, n, dist, b),
        0 <= m <= a.len(),
        m <= b.len(),
    ensures
        forall|k: int| 0 <= k < m ==> a[k] == b[k],
    decreases m,
{
    if m > 0 {
        lemma_selection_prefix(pos, nodes, n, dist, a, b, m - 1);
        // Each of the two entries in place m - 1 is the other or comes after it.
        lemma_selection_next(pos, nodes, n, dist, a, b, m - 1);
        lemma_selection_next(pos, nodes, n, dist, b, a, m - 1);
    }
}

/// Of two nearest selections neither is longer than the other.
proof fn lemma_selection_length(
    pos: Point,
    nodes: Seq<Node>,
    n: usize,
    dist: u64,
    a: Seq<int>,
    b: Seq<int>,
)
    requires
        is_nearest_selection(pos, nodes, n, dist, a),
        is_nearest_selection(pos, nodes, n, dist, b),
        a.len() <= b.len(),
    ensures
        a.len() == b.len(),
{
    if a.len() < b.len() {
        lemma_selection_prefix(pos, nodes, n, dist, a, b, a.len() as int);
        let x = b[a.len() as int];
        assert(within(pos, nodes[x], dist));
        if a.contains(x) {
            let q = choose|q: int| 0 <= q < a.len() && a[q] == x;
            assert(nearer(pos, nodes, b[q], b[a.len() as int]));
        }
    }
}

/// The indices of the `wanted` nearest nodes within `dist` of `pos`, nearest
/// first.
pub open spec fn nearest_selection(pos: Point, nodes: Seq<Node>, n: usize, dist: u64) -> Seq<int> {
    choose|idx: Seq<int>| is_nearest_selection(pos, nodes, n, dist, idx)
}

/// A nearest selection is the nearest selection.
pub proof fn lemma_nearest_selection_is(
    pos: Point,
    nodes: Seq<Node>,
    n: usize,
    dist: u64,
    idx: Seq<int>,
)
    requires
        is_nearest_selection(pos, nodes, n, dist, idx),
    ensures
        nearest_selection(pos, nodes, n, dist) == idx,
{
    let chosen = nearest_selection(pos, nodes, n, dist);
    assert(is_nearest_selection(pos, nodes, n, dist, chosen));
    lemma_nearest_selection_unique(pos, nodes, n, dist, chosen, idx);
}

/// The nearest `m` are the first `m` of the nearest `n`, where `m` is not
/// zero and not more than `n`.
pub proof fn lemma_nearest_selection_prefix(
    pos: Point,
    nodes: Seq<Node>,
    m: usize,
    n: usize,
    dist: u64,
    idx: Seq<int>,
)
    requires
        is_nearest_selection(pos, nodes, n, dist, idx),
        0 < m <= n,
    ensures
        is_nearest_selection(
            pos,
            nodes,
            m,
            dist,
            if idx.len() <= m {
                idx
            } else {
                idx.take(m as int)
            },
        ),
        nearest_selection(pos, nodes, m, dist) == if idx.len() <= m {
            idx
        } else {
            idx.take(m as int)
        },
{
    let first = if idx.len() <= m {
        idx
    } else {
        idx.take(m as int)
    };
    assert forall|j: int|
        0 <= j < nodes.len() && within(pos, #[trigger] nodes[j], dist) && !first.contains(
            j,
        ) implies {
        &&& first.len() == wanted(nodes, m)
        &&& forall|k: int| 0 <= k < first.len() ==> nearer(pos, nodes, #[trigger] first[k], j)
    } by {
        if idx.contains(j) {
            let q = choose|q: int| 0 <= q < idx.len() && idx[q] == j;
            if q < first.len() {
                assert(first[q] == j);
                assert(false);
            }
            assert forall|k: int| 0 <= k < first.len() implies nearer(
                pos,
                nodes,
                #[trigger] first[k],
                j,
            ) by {
                assert(first[k] == idx[k]);
                assert(nearer(pos, nodes, idx[k], idx[q]));
            }
        } else {
            assert forall|k: int| 0 <= k < first.len() implies nearer(
                pos,
                nodes,
                #[trigger] first[k],
                j,
            ) by {
                assert(first[k] == idx[k]);
            }
        }
    }
    assert(is_nearest_selection(pos, nodes, m, dist, first));
    lemma_nearest_selection_is(pos, nodes, m, dist, first);
}

/// Finds the index of the nearest node within `dist` of `pos` that comes
/// after the node at index `last` in the order of `nearer`, or the nearest
/// of all where `last` is `None`.
fn next_nearest(pos: &Point, nodes: &[Node], dist: u64, last: Option<usize>) -> (best: Option<
    usize,
>)
    requires
        last matches Some(l) ==> l < nodes.len(),
    ensures
        match best {
            Some(b) => {
                &&& b < nodes.len()
                &&& within(*pos, nodes@[b as int], dist)
                &&& last matches Some(l) ==> nearer(*pos, nodes@, l as int, b as int)
                &&& forall|j: int|
                    0 <= j < nodes.len() && j != b && within(*pos, #[trigger] nodes@[j], dist) && (
                    last matches Some(l) ==> nearer(*pos, nodes@, l as int, j)) ==> nearer(
                        *pos,
                        nodes@,
                        b as int,
                        j,
                    )
            },
            None => forall|j: int|
                0 <= j < nodes.len() && within(*pos, #[trigger] nodes@[j], dist) ==> !(
                last matches Some(l) ==> nearer(*pos, nodes@, l as int, j)),
        },
{
    let mut best: Option<usize> = None;
    let mut best_d: u128 = 0;
    let mut last_d: u128 = 0;
    if let Some(l) = last {
        last_d = pos.dist2(nodes[l].pos);
    }
    let mut i: usize = 0;
    while i < nodes.len()
        invariant
            i <= nodes.len(),
            last matches Some(l) ==> l < nodes.len() && last_d as int == pos.dist2_spec(
                nodes@[l as int].pos,
            ),
            match best {
                Some(b) => {
                    &&& b < i
                    &&& best_d as int == pos.dist2_spec(nodes@[b as int].pos)
                    &&& within(*pos, nodes@[b as int], dist)
                    &&& last matches Some(l) ==> nearer(*pos, nodes@, l as int, b as int)
                    &&& forall|j: int|
                        0 <= j < i && j != b && within(*pos, #[trigger] nodes@[j], dist) && (
                        last matches Some(l) ==> nearer(*pos, nodes@, l as int, j)) ==> nearer(
                            *pos,
                            nodes@,
                            b as int,
                            j,
                        )
                },
                None => forall|j: int|
                    0 <= j < i && within(*pos, #[trigger] nodes@[j], dist) ==> !(
                    last matches Some(l) ==> nearer(*pos, nodes@, l as int, j)),
            },
        decreases nodes.len() - i,
    {
        let d: u128 = pos.dist2(nodes[i].pos);
        assert((dist as int) * (dist as int) <= u128::MAX) by (nonlinear_arith)
            requires
                0 <= dist as int <= 0xffff_ffff_ffff_ffff,
        ;
        let close: bool = dist == 0 || d < (dist as u128) * (dist as u128);
        let after: bool = match last {
            Some(l) => last_d < d || (last_d == d && l < i),
            None => true,
        };
        if close && after {
            let better: bool = match best {
                Some(_) => d < best_d,
                None => true,
            };
            if better {
                best = Some(i);
                best_d = d;
            }
        }
        i = i + 1;
    }
    best
}

/// Returns the nodes nearest to `pos`, nearest first: at most `n` of them
/// (all of them where `n` is zero), and only those closer than `dist` (any
/// where `dist` is zero).  Equally distant nodes keep their order.
pub fn get_nearest_nodes(pos: &Point, nodes: &[Node], n: usize, dist: u64) -> (res: Vec<Node>)
    ensures
        is_nearest_selection(*pos, nodes@, n, dist, nearest_selection(*pos, nodes@, n, dist)),
        res@ == pick_nodes(nodes@, nearest_selection(*pos, nodes@, n, dist)),
        res@.len() <= nodes@.len(),
        res@.len() > 0 <==> exists|j: int|
            0 <= j < nodes@.len() && within(*pos, #[trigger] nodes@[j], dist),
{
    let cap: usize = if n == 0 {
        nodes.len()
    } else {
        n
    };
    let mut res: Vec<Node> = Vec::new();
    let ghost mut idx: Seq<int> = Seq::empty();
    let mut last: Option<usize> = None;
    let mut done: bool = false;
    while res.len() < cap && !done
        invariant
            cap as int == wanted(nodes@, n),
            res@.len() <= cap,
            res@ == pick_nodes(nodes@, idx),
            idx.len() == res@.len(),
            match last {
                Some(l) => idx.len() > 0 && idx.last() == l && l < nodes.len(),
                None => idx.len() == 0,
            },
            forall|k: int|
                0 <= k < idx.len() ==> 0 <= #[trigger] idx[k] < nodes.len() && within(
                    *pos,
                    nodes@[idx[k]],
                    dist,
                ),
            forall|k1: int, k2: int|
                0 <= k1 < k2 < idx.len() ==> nearer(
                    *pos,
                    nodes@,
                    #[trigger] idx[k1],
                    #[trigger] idx[k2],
                ),
            forall|j: int, k: int|
                0 <= j < nodes.len() && within(*pos, #[trigger] nodes@[j], dist) && !idx.contains(j)
                    && 0 <= k < idx.len() ==> nearer(*pos, nodes@, #[trigger] idx[k], j),
            done ==> forall|j: int|
                0 <= j < nodes.len() && within(*pos, #[trigger] nodes@[j], dist) ==> idx.contains(
                    j,
                ),
        decreases (cap - res.len()) + (if done { 0int } else { 1int }),
    {
        let best = next_nearest(pos, nodes, dist, last);
        match best {
            Some(b) => {
                proof {
                    let old_idx = idx;
                    idx = idx.push(b as int);
                    assert(!old_idx.contains(b as int)) by {
                        if old_idx.contains(b as int) {
                            let q = choose|q: int| 0 <= q < old_idx.len() && old_idx[q] == b as int;
                            if q < old_idx.len() - 1 {
                                assert(nearer(*pos, nodes@, old_idx[q], old_idx[old_idx.len() - 1]));
                            }
                        }
                    }
                    assert forall|k1: int, k2: int| 0 <= k1 < k2 < idx.len() implies nearer(
                        *pos,
                        nodes@,
                        #[trigger] idx[k1],
                        #[trigger] idx[k2],
                    ) by {
                        if k2 == idx.len() - 1 {
                            assert(idx[k1] == old_idx[k1]);
                            assert(nodes@[b as int] == nodes@[idx[k2]]);
                        } else {
                            assert(idx[k1] == old_idx[k1]);
                            assert(idx[k2] == old_idx[k2]);
                        }
                    }
                    assert forall|j: int, k: int|
                        0 <= j < nodes.len() && within(*pos, #[trigger] nodes@[j], dist)
                            && !idx.contains(j) && 0 <= k < idx.len() implies nearer(
                        *pos,
                        nodes@,
                        #[trigger] idx[k],
                        j,
                    ) by {
                        assert(idx[idx.len() - 1] == b as int);
                        assert(j != b as int);
                        assert(!old_idx.contains(j)) by {
                            if old_idx.contains(j) {
                                let q = choose|q: int| 0 <= q < old_idx.len() && old_idx[q] == j;
                                assert(idx[q] == j);
                            }
                        }
                        if k < old_idx.len() {
                            assert(idx[k] == old_idx[k]);
                        } else {
                            if old_idx.len() > 0 {
                                assert(nearer(*pos, nodes@, old_idx[old_idx.len() - 1], j));
                            }
                        }
                    }
                }
                res.push(nodes[b]);
                last = Some(b);
                assert(res@ =~= pick_nodes(nodes@, idx));
            },
            None => {
                done = true;
                proof {
                    assert forall|j: int|
                        0 <= j < nodes.len() && within(
                            *pos,
                            #[trigger] nodes@[j],
                            dist,
                        ) implies idx.contains(j) by {
                        if !idx.contains(j) {
                            if idx.len() > 0 {
                                assert(nearer(*pos, nodes@, idx[idx.len() - 1], j));
                            }
                        }
                    }
                }
            },
        }
    }
    proof {
        assert(is_nearest_selection(*pos, nodes@, n, dist, idx));
        lemma_nearest_selection_is(*pos, nodes@, n, dist, idx);
        lemma_selection_bounded(*pos, nodes@, idx);
        if res@.len() == 0 {
            // Nothing was selected although at least one node was wanted,
            // unless there are no nodes at all.
            if exists|j: int| 0 <= j < nodes@.len() && within(*pos, #[trigger] nodes@[j], dist) {
                let j = choose|j: int|
                    0 <= j < nodes@.len() && within(*pos, #[trigger] nodes@[j], dist);
                assert(!idx.contains(j));
                assert(false);
            }
        } else {
            assert(0 <= idx[0] < nodes@.len() && within(*pos, nodes@[idx[0]], dist));
        }
    }
    res
}

/// A sequence of distinct valid indices is no longer than the sequence it
/// indexes.
proof fn lemma_selection_bounded(pos: Point, nodes: Seq<Node>, idx: Seq<int>)
    requires
        forall|k: int| 0 <= k < idx.len() ==> 0 <= #[trigger] idx[k] < nodes.len(),
        forall|k1: int, k2: int|
            0 <= k1 < k2 < idx.len() ==> nearer(pos, nodes, #[trigger] idx[k1], #[trigger] idx[k2]),
    ensures
        idx.len() <= nodes.len(),
{
    assert(idx.no_duplicates()) by {
        assert forall|k1: int, k2: int|
            0 <= k1 < idx.len() && 0 <= k2 < idx.len() && k1 != k2 implies idx[k1] != idx[k2] by {
            if k1 < k2 {
                assert(nearer(pos, nodes, idx[k1], idx[k2]));
            } else {
                assert(nearer(pos, nodes, idx[k2], idx[k1]));
            }
        }
    }
    let s = idx.to_set();
    idx.unique_seq_to_set();
    let full = Set::new(|i: int| 0 <= i < nodes.len());
    assert(full =~= vstd::set_lib::set_int_range(0, nodes.len() as int));
    vstd::set_lib::lemma_int_range(0, nodes.len() as int);
    assert(s.subset_of(full)) by {
        assert forall|x: int| s.contains(x) implies full.contains(x) by {
            let q = choose|q: int| 0 <= q < idx.len() && idx[q] == x;
            assert(0 <= idx[q] < nodes.len());
        }
    }
    vstd::set_lib::lemma_len_subset(s, full);
}

} // verus!
