//! Flow is conserved: a tick moves amounts between reservoirs and links and
//! adds what the nodes generate, and nothing else.

use vstd::prelude::*;
use crate::flow::{FlowHostView, FlowView, blob_sum, landed, lemma_blob_sum_nonnegative,
    lemma_blob_sum_push, lemma_blob_sum_split, under_way, Blob};
use crate::geometry::Time;
use crate::engine::flow_ids;
use crate::flow::disowned;
use crate::graph::PlayerId;
use crate::lookup::{lemma_position, lemma_position_indexed, position};
use crate::protocol::{PersonalRequest, ReqDir};
use crate::sums::{lemma_sum_add, lemma_sum_equal, lemma_sum_scale, lemma_sum_single,
    lemma_sum_split, lemma_sum_zero, sum_upto};
use crate::tick::{lemma_demand_grows, lemma_draw_bounds, lemma_route_ends,
    lemma_settled_bounds, lemma_share, lemma_taken_all, remainder, taken};
use crate::world::{World, node_ids};

verus! {

/// What each of `flows` holds, as a function of its position.
pub open spec fn worths(flows: Seq<FlowView>) -> spec_fn(int) -> int {
    |i: int| flows[i].worth()
}

/// All that `flows` hold together: the amounts of the reservoirs and of the
/// blobs under way.
pub open spec fn total_amount(flows: Seq<FlowView>) -> int {
    sum_upto(worths(flows), flows.len() as int)
}

/// The sizes of `w`'s nodes, as a function of the node's position.
pub open spec fn sizes(w: World) -> spec_fn(int) -> int {
    |n: int| w.nodes[n].size as int
}

impl World {
    /// What each flow's node generates in `dt` milliseconds, as a function
    /// of the flow's position.
    pub open spec fn yields(self, dt: int) -> spec_fn(int) -> int {
        |j: int| self.yield_of(j, dt)
    }

    /// All that the nodes generate in `dt` milliseconds.
    pub open spec fn generation(self, dt: int) -> int {
        sum_upto(self.yields(dt), self.flows.len() as int)
    }

    /// What the blobs of the flow at `i` that have arrived by `now` hold,
    /// if the flow has a route.
    pub open spec fn released(self, now: Time, i: int) -> int {
        match self.route(i) {
            Some(_) => blob_sum(landed(self.flows[i].blobs(), now)),
            None => 0,
        }
    }

    /// What the first `c` flows that draw on the reservoir at `j` take out
    /// of it at `now`.
    pub open spec fn taken_by(self, now: Time, j: int, c: int) -> int {
        taken(
            self.settled(now, j),
            self.demand_count(j, self.flows.len() as int),
            self.request(now),
            c,
        )
    }
}

/// What arrives from the first `m` flows, at all flows together, is what
/// those of the first `m` flows that have a route release.
proof fn lemma_credits_are_releases(w: World, now: Time, m: int)
    requires
        0 <= m <= w.flows.len(),
    ensures
        sum_upto(|j: int| sum_upto(w.deliveries_to(now, j), m), w.flows.len() as int) == sum_upto(
            |i: int| w.released(now, i),
            m,
        ),
    decreases m,
{
    let n = w.flows.len() as int;
    let here = |j: int| sum_upto(w.deliveries_to(now, j), m);
    if m == 0 {
        lemma_sum_zero(here, n);
    } else {
        lemma_credits_are_releases(w, now, m - 1);
        let before = |j: int| sum_upto(w.deliveries_to(now, j), m - 1);
        let step = |j: int| w.delivery(now, m - 1, j);
        assert forall|j: int| 0 <= j < n implies #[trigger] here(j) == before(j) + step(j) by {
            assert(w.deliveries_to(now, j)(m - 1) == w.delivery(now, m - 1, j));
        }
        lemma_sum_add(before, step, here, n);
        match w.route(m - 1) {
            Some(r) => {
                lemma_route_ends(w, m - 1);
                lemma_sum_single(step, n, r.to, w.released(now, m - 1));
            },
            None => {
                lemma_sum_zero(step, n);
            },
        }
    }
}

/// What the first `m` flows draw is what all reservoirs together lose to
/// them.
proof fn lemma_draws_are_taken(w: World, now: Time, m: int)
    requires
        0 <= m <= w.flows.len(),
        w.last_tick <= now,
    ensures
        sum_upto(|j: int| w.taken_by(now, j, w.demand_count(j, m)), w.flows.len() as int)
            == sum_upto(|i: int| w.draw(now, i), m),
    decreases m,
{
    let n = w.flows.len() as int;
    let req = w.request(now);
    assert(req >= 0) by (nonlinear_arith)
        requires
            req == w.rate * (now - w.last_tick),
            w.rate >= 0,
            now - w.last_tick >= 0,
    ;
    let here = |j: int| w.taken_by(now, j, w.demand_count(j, m));
    if m == 0 {
        assert forall|j: int| 0 <= j < n implies #[trigger] here(j) == 0 by {
            lemma_settled_bounds(w, now, j);
            assert(req * 0 == 0) by (nonlinear_arith);
            let q = w.settled(now, j) / w.demand_count(j, n);
            assert(q * 0 == 0) by (nonlinear_arith);
        }
        lemma_sum_zero(here, n);
    } else {
        lemma_draws_are_taken(w, now, m - 1);
        let before = |j: int| w.taken_by(now, j, w.demand_count(j, m - 1));
        let step = |j: int|
            if w.demand(m - 1, j) == 1 {
                w.draw(now, m - 1)
            } else {
                0
            };
        assert forall|j: int| 0 <= j < n implies #[trigger] here(j) == before(j) + step(j) by {
            assert(w.demands_on(j)(m - 1) == w.demand(m - 1, j));
            if w.demand(m - 1, j) == 1 {
                lemma_settled_bounds(w, now, j);
                lemma_demand_grows(w, j, m, n);
                lemma_demand_grows(w, j, m - 1, m - 1);
                lemma_share(
                    w.settled(now, j),
                    w.demand_count(j, n),
                    req,
                    w.demand_count(j, m - 1),
                );
            }
        }
        lemma_sum_add(before, step, here, n);
        match w.route(m - 1) {
            Some(r) => {
                lemma_route_ends(w, m - 1);
                lemma_sum_single(step, n, r.from, w.draw(now, m - 1));
            },
            None => {
                lemma_sum_zero(step, n);
            },
        }
    }
}

/// Nothing arrives at a link and nothing draws on one.
proof fn lemma_links_are_no_ends(w: World, now: Time, i: int, m: int)
    requires
        0 <= i < w.flows.len(),
        0 <= m <= w.flows.len(),
        !w.flows[i].at_node(),
    ensures
        sum_upto(w.deliveries_to(now, i), m) == 0,
        w.demand_count(i, m) == 0,
{
    assert forall|k: int| 0 <= k < m implies #[trigger] w.deliveries_to(now, i)(k) == 0 by {
        if w.route(k) is Some {
            lemma_route_ends(w, k);
        }
    }
    lemma_sum_zero(w.deliveries_to(now, i), m);
    assert forall|k: int| 0 <= k < m implies #[trigger] w.demands_on(i)(k) == 0 by {
        if w.route(k) is Some {
            lemma_route_ends(w, k);
        }
    }
    lemma_sum_zero(w.demands_on(i), m);
}

/// A tick creates and destroys nothing: all that the flows hold after it is
/// what they held before plus what the nodes have generated since the last
/// tick.
pub proof fn lemma_tick_conserves(w: World, now: Time)
    requires
        w.last_tick <= now,
        w.flows_fit(now),
    ensures
        total_amount(w.tick_flows(now)) == total_amount(w.flows) + w.generation(
            now - w.last_tick,
        ),
{
    let n = w.flows.len() as int;
    let dt = now - w.last_tick;
    let req = w.request(now);
    assert(req >= 0) by (nonlinear_arith)
        requires
            req == w.rate * (now - w.last_tick),
            w.rate >= 0,
            now - w.last_tick >= 0,
    ;
    let after = w.tick_flows(now);
    let new_worth = worths(after);
    let old_worth = worths(w.flows);
    let released = |i: int| w.released(now, i);
    let lost = |j: int| w.taken_by(now, j, w.demand_count(j, n));
    let credited = |j: int| sum_upto(w.deliveries_to(now, j), n);
    let grown = w.yields(dt);
    let drawn = |i: int| w.draw(now, i);
    lemma_credits_are_releases(w, now, n);
    lemma_draws_are_taken(w, now, n);
    // left:  new worth + released + lost;  right: old worth + credited + grown + drawn
    let left1 = |i: int| new_worth(i) + released(i);
    let left = |i: int| left1(i) + lost(i);
    let right1 = |i: int| old_worth(i) + credited(i);
    let right2 = |i: int| right1(i) + grown(i);
    let right = |i: int| right2(i) + drawn(i);
    assert forall|i: int| 0 <= i < n implies #[trigger] left(i) == right(i) by {
        assert(after[i] == w.tick_flow(now, i));
        assert(w.peak(now, i) <= u64::MAX);
        lemma_settled_bounds(w, now, i);
        lemma_draw_bounds(w, now, i);
        lemma_demand_grows(w, i, n, n);
        match w.flows[i].host {
            FlowHostView::Node(_) => {
                assert(w.route(i) is None);
                lemma_taken_all(w.settled(now, i), w.demand_count(i, n), req);
            },
            FlowHostView::Link { blobs, .. } => {
                lemma_links_are_no_ends(w, now, i, n);
                assert(req * 0 == 0) by (nonlinear_arith);
                let q = w.settled(now, i) / 0;
                assert(q * 0 == 0) by (nonlinear_arith);
                lemma_blob_sum_split(blobs, now);
                lemma_blob_sum_nonnegative(under_way(blobs, now));
                lemma_blob_sum_nonnegative(landed(blobs, now));
                match w.route(i) {
                    Some(r) => {
                        lemma_blob_sum_push(
                            under_way(blobs, now),
                            Blob {
                                amount: w.draw(now, i) as u64,
                                arrive_at: (now + r.travel) as Time,
                            },
                        );
                    },
                    None => {},
                }
            },
        }
    }
    lemma_sum_equal(left, right, n);
    lemma_sum_add(new_worth, released, left1, n);
    lemma_sum_add(left1, lost, left, n);
    lemma_sum_add(old_worth, credited, right1, n);
    lemma_sum_add(right1, grown, right2, n);
    lemma_sum_add(right2, drawn, right, n);
}

/// Moving time on creates and destroys nothing: where time can move on to
/// `now`, all that the flows hold grows by what the nodes have generated
/// since the last tick; where it cannot, nothing changes.
pub proof fn lemma_advance_conserves(w: World, now: Time)
    ensures
        total_amount(w.advance(now).flows) == total_amount(w.flows) + if w.can_advance(now) {
            w.generation(now - w.last_tick)
        } else {
            0
        },
{
    if w.can_advance(now) {
        lemma_tick_conserves(w, now);
    }
}

/// In a consistent world the nodes generate, in `dt` milliseconds, `dt`
/// times the sum of their sizes.
pub proof fn lemma_generation_by_size(w: World, dt: int)
    requires
        w.wf(),
    ensures
        w.generation(dt) == sum_upto(sizes(w), w.nodes.len() as int) * dt,
{
    let links = w.links.len() as int;
    let nodes = w.nodes.len() as int;
    let f = w.yields(dt);
    let g = |n: int| w.nodes[n].size * dt;
    assert forall|i: int| 0 <= i < links implies #[trigger] f(i) == 0 by {
        assert(w.flows[i].host is Link);
    }
    lemma_sum_zero(f, links);
    assert forall|n: int| 0 <= n < nodes implies #[trigger] g(n) == f(links + n) by {
        assert(w.flows[links + n].host == FlowHostView::Node(w.nodes[n].id));
        lemma_position_indexed(node_ids(w.nodes), w.nodes[n].id);
    }
    lemma_sum_split(f, g, links, nodes);
    lemma_sum_scale(sizes(w), g, dt, nodes);
}

/// In a consistent world a tick that takes place adds, to all that the flows
/// hold, the sum of the nodes' sizes times the time since the last tick, and
/// nothing else.
pub proof fn lemma_tick_adds_sizes(w: World, now: Time)
    requires
        w.wf(),
        w.can_advance(now),
    ensures
        total_amount(w.advance(now).flows) == total_amount(w.flows) + sum_upto(
            sizes(w),
            w.nodes.len() as int,
        ) * (now - w.last_tick),
{
    lemma_advance_conserves(w, now);
    lemma_generation_by_size(w, now - w.last_tick);
}

/// A reservoir is never overdrawn: what is left after its links have drawn
/// is not negative, it is nothing if the links ask for more than there is,
/// and what the links ask for is taken in full if there is enough.
pub proof fn lemma_reservoir_never_negative(a: int, k: int, req: int)
    requires
        0 <= a,
        0 <= k,
        0 <= req,
    ensures
        0 <= remainder(a, k, req) <= a,
        req * k > a ==> remainder(a, k, req) == 0,
        req * k <= a ==> remainder(a, k, req) == a - req * k,
{
    lemma_taken_all(a, k, req);
}

/// What a request other than a tick, a snapshot, a turn of a flow or a
/// restart does to the flows leaves every one of them holding what it held.
pub proof fn lemma_amounts_are_kept(w: World, req: PersonalRequest, now: Time, pick: int, fresh: World)
    requires
        req.request is NewPlayer || req.request is PlayerExit || req.request is Jump,
    ensures
        total_amount(w.step(req, now, pick, fresh).world.flows) == total_amount(w.flows),
{
    let after = w.step(req, now, pick, fresh).world.flows;
    assert(after.len() == w.flows.len());
    assert forall|i: int| 0 <= i < w.flows.len() implies #[trigger] worths(after)(i) == worths(
        w.flows,
    )(i) by {
        if req.request is PlayerExit {
            assert(after[i] == disowned(w.flows[i], req.player));
        }
    }
    lemma_sum_equal(worths(after), worths(w.flows), w.flows.len() as int);
}

/// Turning a flow on a link destroys what is under way on it, and nothing
/// else: all that the flows hold shrinks by what the blobs on that link
/// held.
pub proof fn lemma_turn_drops_blobs(w: World, id: PlayerId, flow_id: usize, dir: ReqDir)
    ensures
        total_amount(w.change_flow(id, flow_id, dir).world.flows) == total_amount(w.flows)
            - match position(flow_ids(w.flows), flow_id) {
            Some(p) => if w.flows[p].at_node() {
                0
            } else {
                w.flows[p].worth()
            },
            None => 0,
        },
{
    lemma_position(flow_ids(w.flows), flow_id);
    let n = w.flows.len() as int;
    let after = w.change_flow(id, flow_id, dir).world.flows;
    match position(flow_ids(w.flows), flow_id) {
        Some(p) => {
            if !w.flows[p].at_node() {
                let lost = |i: int|
                    if i == p {
                        w.flows[p].worth()
                    } else {
                        0
                    };
                assert(blob_sum(Seq::<Blob>::empty()) == 0);
                assert forall|i: int| 0 <= i < n implies #[trigger] worths(w.flows)(i) == worths(
                    after,
                )(i) + lost(i) by {
                    if i != p {
                        assert(after[i] == w.flows[i]);
                    }
                }
                lemma_sum_add(worths(after), lost, worths(w.flows), n);
                lemma_sum_single(lost, n, p, w.flows[p].worth());
            }
        },
        None => {},
    }
}

} // verus!
