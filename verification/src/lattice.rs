//! Room for every node: a lattice of points, `MIN_SEPARATION` apart, fills
//! the field, and a node crowds at most four of them.  As long as fewer than
//! a quarter as many nodes as lattice points are placed, some lattice point
//! is free.

use vstd::prelude::*;
use vstd::relations::injective_on;
use vstd::set_lib::{lemma_int_range, lemma_len_subset, lemma_map_size, set_int_range};
use crate::generate::{MAX_SIZE, MIN_SEPARATION, MIN_SIZE, crowded, in_field,
    lemma_place_keeps_generated, nodes_generated, try_place};
use crate::geometry::{Point, square};
use crate::graph::Node;
use crate::nearest::within;
use crate::outside::random_range;

verus! {

/// The number of lattice points.
pub const LATTICE_POINTS: usize = 400;

/// The lattice always has room for this many nodes.
pub const ROOM: usize = 100;

/// The lattice point number `t`: the points run through the field column
/// by column, twenty to a column, `MIN_SEPARATION` apart.
pub open spec fn lattice_point(t: int) -> Point {
    Point { x: (100 * (t / 20) - 1000) as i32, y: (100 * (t % 20) - 1000) as i32 }
}

/// Computes the lattice point number `t`.
fn lattice(t: usize) -> (p: Point)
    requires
        t < LATTICE_POINTS,
    ensures
        p == lattice_point(t as int),
        in_field(p),
{
    let column: i32 = (t / 20) as i32;
    let row: i32 = (t % 20) as i32;
    Point { x: 100 * column - 1000, y: 100 * row - 1000 }
}

/// A number whose square is below 10000 lies strictly between -100 and
/// 100.
proof fn lemma_small_square(d: int)
    requires
        square(d) < 10000,
    ensures
        -100 < d < 100,
{
    if d >= 100 {
        assert(d * d >= 10000) by (nonlinear_arith)
            requires
                d >= 100,
        ;
    }
    if d <= -100 {
        assert(d * d >= 10000) by (nonlinear_arith)
            requires
                d <= -100,
        ;
    }
}

/// A node that crowds a point lies less than `MIN_SEPARATION` from it along
/// either axis.
proof fn lemma_within_box(pos: Point, node: Node)
    requires
        within(pos, node, MIN_SEPARATION),
    ensures
        -100 < pos.x - node.pos.x < 100,
        -100 < pos.y - node.pos.y < 100,
{
    let dx = pos.x - node.pos.x;
    let dy = pos.y - node.pos.y;
    assert(dx * dx >= 0) by (nonlinear_arith);
    assert(dy * dy >= 0) by (nonlinear_arith);
    lemma_small_square(dx);
    lemma_small_square(dy);
}

/// The node that crowds the lattice point `t`.
pub open spec fn crowding_node(nodes: Seq<Node>, t: int) -> int {
    choose|j: int| 0 <= j < nodes.len() && within(lattice_point(t), #[trigger] nodes[j], MIN_SEPARATION)
}

/// The node that crowds the lattice point `t`, together with the quarter of
/// the plane, seen from the node, in which the point lies.
pub open spec fn crowding_code(nodes: Seq<Node>, t: int) -> int {
    let j = crowding_node(nodes, t);
    let p = lattice_point(t);
    4 * j + (if p.x <= nodes[j].pos.x {
        0int
    } else {
        2int
    }) + (if p.y <= nodes[j].pos.y {
        0int
    } else {
        1int
    })
}

/// Nodes that crowd every lattice point are at least `ROOM` in number: a
/// node crowds at most one lattice point in each of the four quarters of the
/// plane around it.
pub proof fn lemma_lattice_needs_nodes(nodes: Seq<Node>)
    requires
        forall|t: int| 0 <= t < LATTICE_POINTS ==> crowded(nodes, #[trigger] lattice_point(t)),
    ensures
        nodes.len() >= ROOM,
{
    let points = set_int_range(0, LATTICE_POINTS as int);
    let code = |t: int| crowding_code(nodes, t);
    let codes = points.map(code);
    lemma_int_range(0, LATTICE_POINTS as int);
    assert forall|t: int| 0 <= t < LATTICE_POINTS implies {
        let j = crowding_node(nodes, t);
        &&& 0 <= j < nodes.len()
        &&& within(lattice_point(t), nodes[j], MIN_SEPARATION)
        &&& 0 <= #[trigger] crowding_code(nodes, t) < 4 * nodes.len()
    } by {
        assert(crowded(nodes, lattice_point(t)));
    }
    assert(injective_on(code, points)) by {
        assert forall|t1: int, t2: int|
            points.contains(t1) && points.contains(t2) && #[trigger] code(t1) == #[trigger] code(
                t2,
            ) implies t1 == t2 by {
            let j1 = crowding_node(nodes, t1);
            let j2 = crowding_node(nodes, t2);
            assert(0 <= crowding_code(nodes, t1) < 4 * nodes.len());
            assert(0 <= crowding_code(nodes, t2) < 4 * nodes.len());
            assert(j1 == j2);
            lemma_within_box(lattice_point(t1), nodes[j1]);
            lemma_within_box(lattice_point(t2), nodes[j2]);
            assert(t1 / 20 == t2 / 20);
            assert(t1 % 20 == t2 % 20);
        }
    }
    lemma_map_size(points, codes, code);
    let all_codes = set_int_range(0, 4 * (nodes.len() as int));
    lemma_int_range(0, 4 * (nodes.len() as int));
    assert(codes.subset_of(all_codes)) by {
        assert forall|c: int| codes.contains(c) implies all_codes.contains(c) by {
            let t = choose|t: int| points.contains(t) && c == code(t);
            assert(0 <= crowding_code(nodes, t) < 4 * nodes.len());
        }
    }
    lemma_len_subset(codes, all_codes);
}

/// `node`, which stands at position `i` among the nodes, was put on a
/// lattice point: its id is `i`, its place is a lattice point, and its size
/// is in range.
pub open spec fn on_lattice(node: Node, i: int) -> bool {
    &&& node.id == i
    &&& MIN_SIZE <= node.size < MAX_SIZE
    &&& exists|t: int| 0 <= t < LATTICE_POINTS && node.pos == #[trigger] lattice_point(t)
}

/// Places nodes on free lattice points, in the order of their numbers,
/// until there are `n` nodes or no lattice point is free.  The nodes that
/// were there stay as they are.  There is room for `ROOM` nodes at least.
pub fn fill_from_lattice(nodes: &mut Vec<Node>, n: usize)
    ensures
        nodes_generated(old(nodes)@) ==> nodes_generated(final(nodes)@),
        old(nodes)@.len() <= final(nodes)@.len(),
        final(nodes)@.take(old(nodes)@.len() as int) == old(nodes)@,
        forall|i: int|
            old(nodes)@.len() <= i < final(nodes)@.len() ==> on_lattice(#[trigger] final(nodes)@[i], i),
        final(nodes)@.len() <= n || final(nodes)@.len() == old(nodes)@.len(),
        n <= ROOM ==> final(nodes)@.len() >= n,
        final(nodes)@.len() < n ==> forall|t: int|
            0 <= t < LATTICE_POINTS ==> crowded(final(nodes)@, #[trigger] lattice_point(t)),
{
    let mut t: usize = 0;
    while t < LATTICE_POINTS && nodes.len() < n
        invariant
            t <= LATTICE_POINTS,
            nodes_generated(old(nodes)@) ==> nodes_generated(nodes@),
            old(nodes)@.len() <= nodes@.len(),
            nodes@.take(old(nodes)@.len() as int) == old(nodes)@,
            forall|i: int|
                old(nodes)@.len() <= i < nodes@.len() ==> on_lattice(#[trigger] nodes@[i], i),
            nodes@.len() <= n || nodes@.len() == old(nodes)@.len(),
            forall|s: int| 0 <= s < t ==> crowded(nodes@, #[trigger] lattice_point(s)),
        decreases LATTICE_POINTS - t,
    {
        let pos = lattice(t);
        let size: i64 = random_range(MIN_SIZE as i64, MAX_SIZE as i64);
        let ghost before = nodes@;
        let placed = try_place(nodes, pos, size as u32);
        proof {
            assert(nodes@.take(old(nodes)@.len() as int) =~= before.take(old(nodes)@.len() as int));
            if placed {
                let node = nodes@[before.len() as int];
                assert(node.pos == lattice_point(t as int));
                assert forall|i: int| old(nodes)@.len() <= i < nodes@.len() implies on_lattice(
                    #[trigger] nodes@[i],
                    i,
                ) by {
                    if i < before.len() {
                        assert(nodes@[i] == before[i]);
                    }
                }
                if nodes_generated(before) {
                    lemma_place_keeps_generated(before, node);
                }
                assert(within(pos, node, MIN_SEPARATION));
            }
            assert forall|s: int| 0 <= s < t + 1 implies crowded(
                nodes@,
                #[trigger] lattice_point(s),
            ) by {
                if crowded(before, lattice_point(s)) {
                    let j = choose|j: int|
                        0 <= j < before.len() && within(
                            lattice_point(s),
                            #[trigger] before[j],
                            MIN_SEPARATION,
                        );
                    assert(nodes@[j] == before[j]);
                } else {
                    assert(s == t);
                    assert(placed);
                    assert(within(pos, nodes@[before.len() as int], MIN_SEPARATION));
                }
            }
        }
        t = t + 1;
    }
    proof {
        if nodes@.len() < n {
            lemma_lattice_needs_nodes(nodes@);
        }
    }
}

} // verus!
