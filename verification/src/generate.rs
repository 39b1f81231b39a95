//! Procedural generation of a world's nodes and links.

use vstd::prelude::*;
use crate::geometry::{Point, lemma_dist2_symmetric};
use crate::graph::{Link, Node, NodeId, linked, links_distinct, links_within, nodes_indexed,
    nodes_separated};
use crate::nearest::{get_nearest_nodes, is_nearest_selection, lemma_nearest_selection_prefix,
    nearest_selection, pick_nodes, within};
use crate::lattice::{ROOM, fill_from_lattice, lemma_lattice_needs_nodes};
use crate::outside::random_range;

verus! {

/// Nodes are placed in the square of coordinates from `-FIELD` up to, but
/// not including, `FIELD`.
pub const FIELD: i64 = 1000;

/// No two nodes lie closer to each other than this.
pub const MIN_SEPARATION: u64 = 100;

/// Node sizes, in thousandths, range from `MIN_SIZE` up to `MAX_SIZE`
/// exclusive.
pub const MIN_SIZE: u32 = 500;

pub const MAX_SIZE: u32 = 1500;

/// Link qualities, in thousandths, range from `MIN_QUALITY` up to
/// `MAX_QUALITY` exclusive.
pub const MIN_QUALITY: u32 = 10;

pub const MAX_QUALITY: u32 = 990;

/// How many random positions are tried for each node that is asked for
/// before generation gives up.
pub const ATTEMPTS_PER_NODE: usize = 10_000;

/// `pos` lies in the square where nodes are placed.
pub open spec fn in_field(pos: Point) -> bool {
    -FIELD <= pos.x < FIELD && -FIELD <= pos.y < FIELD
}

/// The nodes are as generation makes them: indexed by their ids, pairwise
/// `MIN_SEPARATION` apart, inside the field, with sizes in range.
pub open spec fn nodes_generated(nodes: Seq<Node>) -> bool {
    &&& nodes_indexed(nodes)
    &&& nodes_separated(nodes, MIN_SEPARATION * MIN_SEPARATION)
    &&& forall|i: int|
        0 <= i < nodes.len() ==> in_field((#[trigger] nodes[i]).pos) && MIN_SIZE <= nodes[i].size
            < MAX_SIZE
}

/// Some node of `nodes` lies closer than `MIN_SEPARATION` to `pos`.
pub open spec fn crowded(nodes: Seq<Node>, pos: Point) -> bool {
    exists|j: int| 0 <= j < nodes.len() && within(pos, #[trigger] nodes[j], MIN_SEPARATION)
}

/// Appends a node at `pos` unless an existing node lies closer than
/// `MIN_SEPARATION`; the new node's id is its index.
pub fn try_place(nodes: &mut Vec<Node>, pos: Point, size: u32) -> (placed: bool)
    ensures
        placed == !crowded(old(nodes)@, pos),
        placed ==> final(nodes)@ == old(nodes)@.push(
            Node { id: old(nodes)@.len() as usize, pos, size },
        ),
        !placed ==> final(nodes)@ == old(nodes)@,
{
    let near = get_nearest_nodes(&pos, nodes.as_slice(), 1, MIN_SEPARATION);
    if near.len() > 0 {
        return false;
    }
    let id = nodes.len();
    nodes.push(Node { id, pos, size });
    true
}

/// Placing a node where it is not crowded keeps a generated sequence
/// generated.
pub proof fn lemma_place_keeps_generated(nodes: Seq<Node>, node: Node)
    requires
        nodes_generated(nodes),
        !crowded(nodes, node.pos),
        node.id == nodes.len(),
        in_field(node.pos),
        MIN_SIZE <= node.size < MAX_SIZE,
    ensures
        nodes_generated(nodes.push(node)),
{
    let after = nodes.push(node);
    assert forall|i: int, j: int| 0 <= i < j < after.len() implies (#[trigger] after[i]).pos.dist2_spec(
        (#[trigger] after[j]).pos,
    ) >= MIN_SEPARATION * MIN_SEPARATION by {
        if j == nodes.len() {
            assert(after[i] == nodes[i]);
            assert(!within(node.pos, nodes[i], MIN_SEPARATION));
            lemma_dist2_symmetric(node.pos, nodes[i].pos);
        } else {
            assert(after[i] == nodes[i]);
            assert(after[j] == nodes[j]);
        }
    }
    assert forall|i: int| 0 <= i < after.len() implies (#[trigger] after[i]).id == i && in_field(
        after[i].pos,
    ) && MIN_SIZE <= after[i].size < MAX_SIZE by {
        if i < nodes.len() {
            assert(after[i] == nodes[i]);
        }
    }
}

/// Generates `n` nodes by rejection sampling: random positions in the
/// field are tried one after another, and one that crowds an earlier node is
/// thrown away.  Should `ATTEMPTS_PER_NODE * n` positions not suffice, the
/// nodes still missing are placed on free points of the lattice, which has
/// room for `ROOM` nodes at least; only beyond that can the result be short
/// of `n`.
pub fn gen_nodes(n: usize) -> (res: Vec<Node>)
    ensures
        nodes_generated(res@),
        res@.len() <= n,
        n <= ROOM ==> res@.len() == n,
        n >= ROOM ==> res@.len() >= ROOM,
{
    let mut res: Vec<Node> = Vec::new();
    let mut left: u128 = (n as u128) * (ATTEMPTS_PER_NODE as u128);
    while res.len() < n && left > 0
        invariant
            nodes_generated(res@),
            res@.len() <= n,
        decreases left,
    {
        left = left - 1;
        let x: i64 = random_range(-FIELD, FIELD);
        let y: i64 = random_range(-FIELD, FIELD);
        let size: i64 = random_range(MIN_SIZE as i64, MAX_SIZE as i64);
        let pos = Point { x: x as i32, y: y as i32 };
        let ghost before = res@;
        let placed = try_place(&mut res, pos, size as u32);
        proof {
            if placed {
                lemma_place_keeps_generated(before, res@[before.len() as int]);
            }
        }
    }
    fill_from_lattice(&mut res, n);
    proof {
        if res@.len() < n {
            lemma_lattice_needs_nodes(res@);
        }
    }
    res
}

/// Appends a link between the nodes `a` and `b` unless they are the same
/// node or already linked; the new link's id is its index.
pub fn connect(links: &mut Vec<Link>, a: NodeId, b: NodeId, quality: u32) -> (added: bool)
    ensures
        added == (a != b && !linked(old(links)@, a, b)),
        added ==> final(links)@ == old(links)@.push(
            Link { id: old(links)@.len() as usize, quality, n1: a, n2: b },
        ),
        !added ==> final(links)@ == old(links)@,
        links_distinct(old(links)@) ==> links_distinct(final(links)@),
{
    if a == b {
        return false;
    }
    let mut i: usize = 0;
    while i < links.len()
        invariant
            i <= links.len(),
            *links == *old(links),
            forall|j: int| 0 <= j < i ==> !(#[trigger] links@[j]).joins(a, b),
        decreases links.len() - i,
    {
        if links[i].between_ids(&a, &b) {
            return false;
        }
        i = i + 1;
    }
    let id = links.len();
    let link = Link { id, quality, n1: a, n2: b };
    links.push(link);
    proof {
        let before = old(links)@;
        let after = links@;
        if links_distinct(before) {
            assert forall|i: int, j: int| 0 <= i < j < after.len() implies !(#[trigger] after[i]).joins(
                (#[trigger] after[j]).n1,
                after[j].n2,
            ) by {
                assert(after[i] == before[i]);
                if j < before.len() {
                    assert(after[j] == before[j]);
                }
            }
            assert forall|i: int| 0 <= i < after.len() implies (#[trigger] after[i]).id == i
                && after[i].n1 != after[i].n2 by {
                if i < before.len() {
                    assert(after[i] == before[i]);
                }
            }
        }
    }
    true
}

/// The node at position `i` is linked to the two nodes nearest to it, or to
/// as many as there are: of the three nodes nearest to its place the first
/// is the node itself (or one that shares its place), and it is linked to
/// the two that follow.
pub open spec fn linked_to_nearest(nodes: Seq<Node>, links: Seq<Link>, i: int) -> bool {
    let near = nearest_selection(nodes[i].pos, nodes, 3, 0);
    is_nearest_selection(nodes[i].pos, nodes, 3, 0, near) && linked_to_all(nodes, links, i, near)
}

/// The node at position `i` is linked to every node of `near` but the
/// first, and but itself.
pub open spec fn linked_to_all(nodes: Seq<Node>, links: Seq<Link>, i: int, near: Seq<int>) -> bool {
    forall|k: int|
        1 <= k < near.len() ==> nodes[#[trigger] near[k]].id == nodes[i].id || linked(
            links,
            nodes[i].id,
            nodes[near[k]].id,
        )
}

/// `link` leads from the node at position `i` to one of the nodes nearest
/// to it: to the one in place `k` of its `count` nearest, where `count` is
/// three, four or five and `k` is not the first place.
pub open spec fn leads_to_near(nodes: Seq<Node>, link: Link, i: int, count: usize, k: int) -> bool {
    &&& 0 <= i < nodes.len()
    &&& 3 <= count <= 5
    &&& 1 <= k < nearest_selection(nodes[i].pos, nodes, count, 0).len()
    &&& link.n1 == nodes[i].id
    &&& link.n2 == nodes[nearest_selection(nodes[i].pos, nodes, count, 0)[k]].id
}

/// The links are as generation makes them: every link leads from a node to
/// one of the four nodes nearest to it, and its quality is in range.
pub open spec fn links_generated(nodes: Seq<Node>, links: Seq<Link>) -> bool {
    forall|l: int|
        0 <= l < links.len() ==> {
            &&& MIN_QUALITY <= (#[trigger] links[l]).quality < MAX_QUALITY
            &&& exists|i: int, count: usize, k: int| leads_to_near(nodes, links[l], i, count, k)
        }
}

/// The two ends of every link, first end first, in the order of the links.
pub open spec fn link_ends(links: Seq<Link>) -> Seq<(NodeId, NodeId)> {
    Seq::new(links.len(), |l: int| (links[l].n1, links[l].n2))
}

/// One of the pairs `ends` joins the nodes `a` and `b`, in either order.
pub open spec fn ends_joined(ends: Seq<(NodeId, NodeId)>, a: NodeId, b: NodeId) -> bool {
    exists|l: int|
        0 <= l < ends.len() && ((#[trigger] ends[l]).0 == a || ends[l].1 == a) && (ends[l].0 == b
            || ends[l].1 == b)
}

/// The pairs `ends` once the node at position `i` has been linked to the
/// nodes in the places one up to, but not including, `k` of `near`, nearest
/// first: a pair leads from the node to the other, and there is none for
/// the node itself or for two nodes that are joined already.
pub open spec fn joined_to(
    ends: Seq<(NodeId, NodeId)>,
    nodes: Seq<Node>,
    i: int,
    near: Seq<int>,
    k: int,
) -> Seq<(NodeId, NodeId)>
    decreases k,
{
    if k <= 1 {
        ends
    } else {
        let before = joined_to(ends, nodes, i, near, k - 1);
        let a = nodes[i].id;
        let b = nodes[near[k - 1]].id;
        if a != b && !ends_joined(before, a, b) {
            before.push((a, b))
        } else {
            before
        }
    }
}

/// The ends of the links that generation makes for the first `m` nodes,
/// where `counts` holds the number drawn for each node: the nodes are taken
/// in their order, and each is linked to the nodes nearest to it, as many
/// as its number says, itself counted in and skipped.
pub open spec fn linking(nodes: Seq<Node>, counts: Seq<usize>, m: int) -> Seq<(NodeId, NodeId)>
    decreases m,
{
    if m <= 0 {
        Seq::empty()
    } else {
        let near = nearest_selection(nodes[m - 1].pos, nodes, counts[m - 1], 0);
        joined_to(linking(nodes, counts, m - 1), nodes, m - 1, near, near.len() as int)
    }
}

/// The links are those that generation makes of `nodes`, in the order in
/// which it makes them, for some numbers that it may draw: three, four or
/// five for every node.
#[verifier::opaque]
pub open spec fn links_in_order(nodes: Seq<Node>, links: Seq<Link>) -> bool {
    exists|counts: Seq<usize>|
        {
            &&& counts.len() == nodes.len()
            &&& forall|i: int| 0 <= i < counts.len() ==> 3 <= #[trigger] counts[i] <= 5
            &&& link_ends(links) == #[trigger] linking(nodes, counts, nodes.len() as int)
        }
}

/// What is drawn for a node does not matter to the nodes before it.
pub proof fn lemma_linking_prefix(nodes: Seq<Node>, c1: Seq<usize>, c2: Seq<usize>, m: int)
    requires
        forall|j: int| 0 <= j < m ==> c1[j] == c2[j],
    ensures
        linking(nodes, c1, m) == linking(nodes, c2, m),
    decreases m,
{
    if m > 0 {
        lemma_linking_prefix(nodes, c1, c2, m - 1);
    }
}

/// Two nodes are linked exactly if a pair of ends joins them.
pub proof fn lemma_linked_is_joined(links: Seq<Link>, a: NodeId, b: NodeId)
    ensures
        linked(links, a, b) == ends_joined(link_ends(links), a, b),
{
    let ends = link_ends(links);
    if linked(links, a, b) {
        let l = choose|l: int| 0 <= l < links.len() && (#[trigger] links[l]).joins(a, b);
        assert((ends[l].0 == a || ends[l].1 == a) && (ends[l].0 == b || ends[l].1 == b));
    }
    if ends_joined(ends, a, b) {
        let l = choose|l: int|
            0 <= l < ends.len() && ((#[trigger] ends[l]).0 == a || ends[l].1 == a) && (ends[l].0
                == b || ends[l].1 == b);
        assert(links[l].joins(a, b));
    }
}

/// A pair that is linked stays linked when a link is added.
proof fn lemma_linked_stays(links: Seq<Link>, link: Link, a: NodeId, b: NodeId)
    requires
        linked(links, a, b),
    ensures
        linked(links.push(link), a, b),
{
    let i = choose|i: int| 0 <= i < links.len() && (#[trigger] links[i]).joins(a, b);
    assert(links.push(link)[i] == links[i]);
}

/// Links every node, in the nodes' order, to the two to four nodes nearest
/// to it, nearest first, the number drawn at random, skipping pairs that are
/// linked already.  The numbers drawn decide which links there are and in
/// which order; the qualities are drawn as well.  Whatever is drawn, every
/// node ends up linked to the two nodes nearest to it.
pub fn gen_links(nodes: &[Node]) -> (res: Vec<Link>)
    ensures
        links_in_order(nodes@, res@),
        links_distinct(res@),
        nodes_indexed(nodes@) ==> links_within(res@, nodes@.len() as int),
        res@.len() <= 4 * nodes@.len(),
        links_generated(nodes@, res@),
        forall|i: int| 0 <= i < nodes@.len() ==> #[trigger] linked_to_nearest(nodes@, res@, i),
{
    let mut res: Vec<Link> = Vec::new();
    let ghost mut counts: Seq<usize> = Seq::empty();
    assert(link_ends(res@) =~= linking(nodes@, counts, 0));
    let mut i: usize = 0;
    while i < nodes.len()
        invariant
            i <= nodes.len(),
            counts.len() == i,
            forall|h: int| 0 <= h < counts.len() ==> 3 <= #[trigger] counts[h] <= 5,
            link_ends(res@) == linking(nodes@, counts, i as int),
            links_distinct(res@),
            nodes_indexed(nodes@) ==> links_within(res@, nodes@.len() as int),
            res@.len() <= 4 * i,
            links_generated(nodes@, res@),
            forall|h: int| 0 <= h < i ==> #[trigger] linked_to_nearest(nodes@, res@, h),
        decreases nodes.len() - i,
    {
        let node = nodes[i];
        let drawn: i64 = random_range(2, 5);
        let links_count: usize = (drawn + 1) as usize;
        let nearest = get_nearest_nodes(&node.pos, nodes, links_count, 0);
        let ghost idx = nearest_selection(node.pos, nodes@, links_count, 0);
        let ghost so_far = link_ends(res@);
        let mut k: usize = 1;
        while k < nearest.len()
            invariant
                1 <= k,
                link_ends(res@) == joined_to(so_far, nodes@, i as int, idx, k as int),
                i < nodes.len(),
                node == nodes@[i as int],
                nearest@.len() <= 5,
                k <= nearest@.len() || k == 1,
                res@.len() <= 4 * i + (k - 1),
                is_nearest_selection(node.pos, nodes@, links_count, 0, idx),
                nearest@ == pick_nodes(nodes@, idx),
                links_distinct(res@),
                nodes_indexed(nodes@) ==> links_within(res@, nodes@.len() as int),
                3 <= links_count <= 5,
                idx == nearest_selection(node.pos, nodes@, links_count, 0),
                links_generated(nodes@, res@),
                forall|h: int| 0 <= h < i ==> #[trigger] linked_to_nearest(nodes@, res@, h),
                forall|m: int|
                    1 <= m < k && m < idx.len() ==> nodes@[#[trigger] idx[m]].id == node.id
                        || linked(res@, node.id, nodes@[idx[m]].id),
            decreases nearest.len() - k,
        {
            let other = nearest[k];
            let quality: i64 = random_range(MIN_QUALITY as i64, MAX_QUALITY as i64);
            let ghost before = res@;
            let added = connect(&mut res, node.id, other.id, quality as u32);
            proof {
                assert(other == nodes@[idx[k as int]]);
                lemma_linked_is_joined(before, node.id, other.id);
                if added {
                    assert(link_ends(res@) =~= link_ends(before).push((node.id, other.id)));
                }
                if nodes_indexed(nodes@) && added {
                    assert forall|j: int| 0 <= j < res@.len() implies (#[trigger] res@[j]).n1
                        < nodes@.len() && res@[j].n2 < nodes@.len() by {
                        if j < before.len() {
                            assert(res@[j] == before[j]);
                        }
                    }
                }
                if added {
                    let link = res@[before.len() as int];
                    assert(link.joins(node.id, other.id));
                    assert(leads_to_near(nodes@, link, i as int, links_count, k as int));
                    assert forall|l: int| 0 <= l < res@.len() implies {
                        &&& MIN_QUALITY <= (#[trigger] res@[l]).quality < MAX_QUALITY
                        &&& exists|i: int, count: usize, k: int|
                            leads_to_near(nodes@, res@[l], i, count, k)
                    } by {
                        if l < before.len() {
                            assert(res@[l] == before[l]);
                        }
                    }
                    assert forall|h: int| 0 <= h < i implies #[trigger] linked_to_nearest(
                        nodes@,
                        res@,
                        h,
                    ) by {
                        lemma_links_grow(nodes@, before, link, h);
                    }
                    assert forall|m: int| 1 <= m < k + 1 && m < idx.len() implies nodes@[#[trigger] idx[m]].id
                        == node.id || linked(res@, node.id, nodes@[idx[m]].id) by {
                        if m < k {
                            if nodes@[idx[m]].id != node.id {
                                lemma_linked_stays(before, link, node.id, nodes@[idx[m]].id);
                            }
                        }
                    }
                }
            }
            k = k + 1;
        }
        proof {
            let drawn_so_far = counts;
            counts = counts.push(links_count);
            lemma_linking_prefix(nodes@, drawn_so_far, counts, i as int);
            assert(link_ends(res@) == linking(nodes@, counts, i + 1));
            lemma_nearest_selection_prefix(node.pos, nodes@, 3, links_count, 0, idx);
            let near = if idx.len() <= 3 {
                idx
            } else {
                idx.take(3)
            };
            assert forall|m: int| 1 <= m < near.len() implies nodes@[#[trigger] near[m]].id
                == node.id || linked(res@, node.id, nodes@[near[m]].id) by {
                assert(near[m] == idx[m]);
            }
            assert(near == nearest_selection(nodes@[i as int].pos, nodes@, 3, 0));
            assert(linked_to_all(nodes@, res@, i as int, near));
        }
        i = i + 1;
    }
    proof {
        reveal(links_in_order);
    }
    res
}

/// What was linked to its nearest stays so when a link is added.
proof fn lemma_links_grow(nodes: Seq<Node>, links: Seq<Link>, link: Link, h: int)
    requires
        linked_to_nearest(nodes, links, h),
    ensures
        linked_to_nearest(nodes, links.push(link), h),
{
    let near = nearest_selection(nodes[h].pos, nodes, 3, 0);
    assert forall|k: int| 1 <= k < near.len() implies nodes[#[trigger] near[k]].id == nodes[h].id
        || linked(links.push(link), nodes[h].id, nodes[near[k]].id) by {
        if nodes[near[k]].id != nodes[h].id {
            lemma_linked_stays(links, link, nodes[h].id, nodes[near[k]].id);
        }
    }
}

} // verus!
