//! One tick of the flow, in three steps.  First the blobs that have arrived
//! are credited to the reservoir they were heading for, and every reservoir
//! grows by what its node generates: the node's size times the time since
//! the last tick.  Then every link with a direction asks its origin for the
//! rate times that time.  Last, every reservoir serves its links: in full if
//! it holds enough for all; otherwise in proportion, which, all links
//! asking for the same, means in equal shares.  What cannot be shared
//! evenly goes, one each, to the links that come first, so that the
//! reservoir is left exactly empty.  What a link draws travels on it as a
//! new blob.
//!
//! Amounts are whole numbers of millionths of a unit of flow.  A tick
//! whose amounts do not fit in 64 bits does not take place.

use vstd::prelude::*;
use vstd::arithmetic::div_mod::{lemma_fundamental_div_mod, lemma_div_pos_is_pos,
    lemma_mod_bound};
use crate::avatar::{find_link, link_ids};
use crate::flow::{Blob, Flow, FlowHost, FlowHostView, FlowView, blob_sum, flow_views, landed,
    lemma_blob_sum_nonnegative, lemma_blob_sum_push, under_way};
use crate::geometry::{MAX_TRAVEL_TIME, Time};
use crate::graph::NodeId;
use crate::lookup::{is_first, lemma_position, lemma_position_found, lemma_position_missing,
    position};
use crate::sums::{lemma_sum_equal, lemma_sum_monotonic, sum_upto};
use crate::world::{END_OF_TIME, Game, World, find_node, node_ids};

verus! {

/// How a link flow with a direction is connected: the positions, among the
/// flows, of the reservoir it draws from and of the one it delivers to, and
/// the time a blob is under way.
pub struct Route {
    pub from: int,
    pub to: int,
    pub travel: Time,
}

/// A `Route` as the engine holds it.
#[derive(Clone, Copy, Debug)]
pub struct Leg {
    pub from: usize,
    pub to: usize,
    pub travel: Time,
}

impl View for Leg {
    type V = Route;

    open spec fn view(&self) -> Route {
        Route { from: self.from as int, to: self.to as int, travel: self.travel }
    }
}

/// The value of an optional leg.
pub open spec fn leg_view(leg: Option<Leg>) -> Option<Route> {
    match leg {
        Some(l) => Some(l@),
        None => None,
    }
}

/// For every flow the node whose reservoir it is, if it is one.
pub open spec fn reservoir_keys(flows: Seq<FlowView>) -> Seq<Option<NodeId>> {
    Seq::new(flows.len(), |i: int| flows[i].reservoir_of())
}

/// The smaller of two numbers.
pub open spec fn least(a: int, b: int) -> int {
    if a <= b {
        a
    } else {
        b
    }
}

/// What the first `c` of the `k` links that draw on a reservoir holding `a`
/// take together when each asks for `req`: all they ask for if the
/// reservoir can serve all `k` in full; otherwise equal shares of `a`, where
/// the first `a % k` links get one more than the others.
pub open spec fn taken(a: int, k: int, req: int, c: int) -> int {
    if req * k <= a {
        req * c
    } else {
        (a / k) * c + least(c, a % k)
    }
}

/// What the link with `c` links before it takes out of a reservoir holding
/// `a` on which `k` links draw, each asking for `req`.
pub open spec fn share(a: int, k: int, req: int, c: int) -> int {
    if req * k <= a {
        req
    } else {
        a / k + if c < a % k {
            1int
        } else {
            0int
        }
    }
}

/// What is left in a reservoir holding `a` after `k` links, each asking for
/// `req`, have drawn on it: nothing, unless it could serve them all in full.
pub open spec fn remainder(a: int, k: int, req: int) -> int {
    if req * k <= a {
        a - req * k
    } else {
        0
    }
}

impl World {
    /// The position of the reservoir of the node `node` among the flows.
    pub open spec fn reservoir(self, node: NodeId) -> Option<int> {
        position(reservoir_keys(self.flows), Some(node))
    }

    /// The route of the flow at position `i`: it has one if it is hosted by
    /// an existing link, has a direction, both ends of the link have a
    /// reservoir and the link's endpoints exist.
    pub open spec fn route(self, i: int) -> Option<Route> {
        match self.flows[i].host {
            FlowHostView::Link { id, heading: Some(h), .. } => match position(
                link_ids(self.links),
                id,
            ) {
                Some(l) => match (
                    self.reservoir(self.links[l].origin(h.dir)),
                    self.reservoir(self.links[l].target(h.dir)),
                    self.link_time(self.links[l]),
                ) {
                    (Some(from), Some(to), Some(travel)) => Some(Route { from, to, travel }),
                    _ => None,
                },
                None => None,
            },
            _ => None,
        }
    }

    /// What the flow at `i` delivers to the flow at `j` by the time `now`:
    /// the blobs that have arrived, if `j` is where its route leads.
    pub open spec fn delivery(self, now: Time, i: int, j: int) -> int {
        match self.route(i) {
            Some(r) => if r.to == j {
                blob_sum(landed(self.flows[i].blobs(), now))
            } else {
                0
            },
            None => 0,
        }
    }

    /// `delivery` to `j` as a function of the delivering flow.
    pub open spec fn deliveries_to(self, now: Time, j: int) -> spec_fn(int) -> int {
        |i: int| self.delivery(now, i, j)
    }

    /// All that arrives at the flow at `j` by the time `now`.
    pub open spec fn credit(self, now: Time, j: int) -> int {
        sum_upto(self.deliveries_to(now, j), self.flows.len() as int)
    }

    /// One if the flow at `i` draws on the flow at `j`, zero if not.
    pub open spec fn demand(self, i: int, j: int) -> int {
        match self.route(i) {
            Some(r) => if r.from == j {
                1
            } else {
                0
            },
            None => 0,
        }
    }

    /// `demand` on `j` as a function of the drawing flow.
    pub open spec fn demands_on(self, j: int) -> spec_fn(int) -> int {
        |i: int| self.demand(i, j)
    }

    /// The number of flows among the first `m` that draw on the flow at `j`.
    pub open spec fn demand_count(self, j: int, m: int) -> int {
        sum_upto(self.demands_on(j), m)
    }

    /// What the node of the reservoir at `j` generates in `dt` milliseconds:
    /// its size times `dt`; nothing for a link or a missing node.
    pub open spec fn yield_of(self, j: int, dt: int) -> int {
        match self.flows[j].host {
            FlowHostView::Node(n) => match position(node_ids(self.nodes), n) {
                Some(p) => self.nodes[p].size * dt,
                None => 0,
            },
            FlowHostView::Link { .. } => 0,
        }
    }

    /// What the reservoir at `j` holds at `now` once arrivals and generation
    /// are settled, before the links draw on it.
    pub open spec fn settled(self, now: Time, j: int) -> int {
        self.flows[j].amount + self.credit(now, j) + self.yield_of(j, now - self.last_tick)
    }

    /// What every link with a route asks of its origin at `now`.
    pub open spec fn request(self, now: Time) -> int {
        self.rate * (now - self.last_tick)
    }

    /// What the flow at `i` draws from its origin at `now`; nothing without
    /// a route.
    pub open spec fn draw(self, now: Time, i: int) -> int {
        match self.route(i) {
            Some(r) => share(
                self.settled(now, r.from),
                self.demand_count(r.from, self.flows.len() as int),
                self.request(now),
                self.demand_count(r.from, i),
            ),
            None => 0,
        }
    }

    /// The flow at `i` after the tick at `now`.
    pub open spec fn tick_flow(self, now: Time, i: int) -> FlowView {
        let f = self.flows[i];
        match f.host {
            FlowHostView::Node(_) => FlowView {
                id: f.id,
                amount: remainder(
                    self.settled(now, i),
                    self.demand_count(i, self.flows.len() as int),
                    self.request(now),
                ) as u64,
                host: f.host,
            },
            FlowHostView::Link { id, heading, blobs } => match self.route(i) {
                Some(r) => {
                    let queue = under_way(blobs, now).push(
                        Blob {
                            amount: self.draw(now, i) as u64,
                            arrive_at: (now + r.travel) as Time,
                        },
                    );
                    FlowView {
                        id: f.id,
                        amount: blob_sum(queue) as u64,
                        host: FlowHostView::Link { id, heading, blobs: queue },
                    }
                },
                None => FlowView { id: f.id, amount: blob_sum(blobs) as u64, host: f.host },
            },
        }
    }

    /// All flows after the tick at `now`.
    pub open spec fn tick_flows(self, now: Time) -> Seq<FlowView> {
        Seq::new(self.flows.len(), |i: int| self.tick_flow(now, i))
    }

    /// The largest amount the flow at `i` shows during the tick at `now`.
    pub open spec fn peak(self, now: Time, i: int) -> int {
        match self.flows[i].host {
            FlowHostView::Node(_) => self.settled(now, i),
            FlowHostView::Link { blobs, .. } => match self.route(i) {
                Some(r) => blob_sum(under_way(blobs, now)) + self.draw(now, i),
                None => blob_sum(blobs),
            },
        }
    }

    /// Every amount of the tick at `now` fits in 64 bits.
    pub open spec fn flows_fit(self, now: Time) -> bool {
        forall|i: int| 0 <= i < self.flows.len() ==> #[trigger] self.peak(now, i) <= u64::MAX
    }
}

/// Whether `k` links can be served in full is decided by comparing what one
/// asks for with the `k`-th part of what is there.
pub proof fn lemma_full_service(a: int, k: int, req: int)
    requires
        0 <= a,
        0 < k,
        0 <= req,
    ensures
        req * k <= a <==> req <= a / k,
{
    lemma_fundamental_div_mod(a, k);
    lemma_mod_bound(a, k);
    let q = a / k;
    if req <= q {
        assert(req * k <= q * k) by (nonlinear_arith)
            requires
                req <= q,
                0 < k,
        ;
        assert(k * q == q * k) by (nonlinear_arith);
    } else {
        assert(req * k >= (q + 1) * k) by (nonlinear_arith)
            requires
                req >= q + 1,
                0 < k,
        ;
        assert((q + 1) * k == k * q + k) by (nonlinear_arith);
    }
}

/// A share is never negative and never more than what the reservoir holds;
/// the link with `c` links before it takes exactly what lies between what
/// the first `c` and the first `c + 1` links take.
pub proof fn lemma_share(a: int, k: int, req: int, c: int)
    requires
        0 <= a,
        0 <= c < k,
        0 <= req,
    ensures
        0 <= share(a, k, req, c) <= a,
        taken(a, k, req, c + 1) == taken(a, k, req, c) + share(a, k, req, c),
{
    lemma_fundamental_div_mod(a, k);
    lemma_mod_bound(a, k);
    lemma_div_pos_is_pos(a, k);
    let q = a / k;
    if req * k <= a {
        lemma_full_service(a, k, req);
        assert(q <= k * q) by (nonlinear_arith)
            requires
                0 <= q,
                0 < k,
        ;
        assert(req * (c + 1) == req * c + req) by (nonlinear_arith);
    } else {
        assert(q <= k * q) by (nonlinear_arith)
            requires
                0 <= q,
                0 < k,
        ;
        assert(q * (c + 1) == q * c + q) by (nonlinear_arith);
    }
}

/// What all `k` links take together is what the reservoir loses.
pub proof fn lemma_taken_all(a: int, k: int, req: int)
    requires
        0 <= a,
        0 <= k,
        0 <= req,
    ensures
        taken(a, k, req, k) == a - remainder(a, k, req),
        0 <= remainder(a, k, req) <= a,
{
    if req * k <= a {
        assert(req * k >= 0) by (nonlinear_arith)
            requires
                0 <= req,
                0 <= k,
        ;
    } else {
        assert(k > 0) by {
            if k == 0 {
                assert(req * k == 0) by (nonlinear_arith)
                    requires
                        k == 0,
                ;
            }
        }
        lemma_fundamental_div_mod(a, k);
        lemma_mod_bound(a, k);
        assert((a / k) * k == k * (a / k)) by (nonlinear_arith);
    }
}

/// A route leads from one reservoir to another, both among the flows, and
/// only a link has one.
pub proof fn lemma_route_ends(w: World, i: int)
    requires
        0 <= i < w.flows.len(),
        w.route(i) is Some,
    ensures
        w.flows[i].host is Link,
        0 <= w.route(i)->0.from < w.flows.len(),
        0 <= w.route(i)->0.to < w.flows.len(),
        w.flows[w.route(i)->0.from].at_node(),
        w.flows[w.route(i)->0.to].at_node(),
{
    let r = w.route(i)->0;
    let keys = reservoir_keys(w.flows);
    match w.flows[i].host {
        FlowHostView::Link { id, heading: Some(h), .. } => {
            let l = position(link_ids(w.links), id)->0;
            lemma_position(keys, Some(w.links[l].origin(h.dir)));
            lemma_position(keys, Some(w.links[l].target(h.dir)));
            assert(keys[r.from] == w.flows[r.from].reservoir_of());
            assert(keys[r.to] == w.flows[r.to].reservoir_of());
        },
        _ => {},
    }
}

/// What arrives at a flow from the first `m` flows is not negative and not
/// more than what arrives from all.
pub proof fn lemma_credit_grows(w: World, now: Time, j: int, m: int)
    requires
        0 <= m <= w.flows.len(),
    ensures
        0 <= sum_upto(w.deliveries_to(now, j), m) <= w.credit(now, j),
{
    let f = w.deliveries_to(now, j);
    assert forall|i: int| 0 <= i < w.flows.len() implies #[trigger] f(i) >= 0 by {
        lemma_blob_sum_nonnegative(landed(w.flows[i].blobs(), now));
    }
    lemma_sum_monotonic(f, m, w.flows.len() as int);
}

/// The number of flows that draw on a flow grows with the flows counted,
/// and counts none twice.
pub proof fn lemma_demand_grows(w: World, j: int, m: int, n: int)
    requires
        0 <= m <= n,
    ensures
        0 <= w.demand_count(j, m) <= w.demand_count(j, n),
        w.demand_count(j, m) <= m,
    decreases n,
{
    let f = w.demands_on(j);
    assert forall|i: int| 0 <= i < n implies #[trigger] f(i) >= 0 by {}
    lemma_sum_monotonic(f, m, n);
    if m > 0 {
        lemma_demand_grows(w, j, m - 1, m - 1);
    }
}

/// A settled reservoir holds at least what has arrived at it.
pub proof fn lemma_settled_bounds(w: World, now: Time, j: int)
    requires
        0 <= j < w.flows.len(),
        w.last_tick <= now,
    ensures
        0 <= w.credit(now, j) <= w.settled(now, j),
        0 <= w.yield_of(j, now - w.last_tick),
{
    lemma_credit_grows(w, now, j, 0);
    let dt = now - w.last_tick;
    match w.flows[j].host {
        FlowHostView::Node(n) => match position(node_ids(w.nodes), n) {
            Some(p) => {
                let size = w.nodes[p].size;
                assert(size * dt >= 0) by (nonlinear_arith)
                    requires
                        size >= 0,
                        dt >= 0,
                ;
            },
            None => {},
        },
        FlowHostView::Link { .. } => {},
    }
}

/// What a flow draws is never negative and never more than its origin
/// holds once settled.
pub proof fn lemma_draw_bounds(w: World, now: Time, i: int)
    requires
        0 <= i < w.flows.len(),
        w.last_tick <= now,
    ensures
        0 <= w.draw(now, i),
        w.route(i) matches Some(r) ==> w.draw(now, i) <= w.settled(now, r.from),
{
    match w.route(i) {
        Some(r) => {
            lemma_route_ends(w, i);
            lemma_settled_bounds(w, now, r.from);
            let n = w.flows.len() as int;
            lemma_demand_grows(w, r.from, i + 1, n);
            lemma_demand_grows(w, r.from, i, i);
            assert(w.demands_on(r.from)(i) == w.demand(i, r.from));
            assert(w.request(now) >= 0) by (nonlinear_arith)
                requires
                    w.request(now) == w.rate * (now - w.last_tick),
                    w.rate >= 0,
                    now - w.last_tick >= 0,
            ;
            lemma_share(
                w.settled(now, r.from),
                w.demand_count(r.from, n),
                w.request(now),
                w.demand_count(r.from, i),
            );
        },
        None => {},
    }
}

/// The flow takes no notice of the avatars: in two worlds that differ in
/// their avatars only, the same ticks fit and lead to the same flows.
pub proof fn lemma_flows_ignore_avatars(w: World, v: World, now: Time)
    requires
        v.nodes == w.nodes,
        v.links == w.links,
        v.flows == w.flows,
        v.last_tick == w.last_tick,
        v.rate == w.rate,
    ensures
        v.flows_fit(now) == w.flows_fit(now),
        v.tick_flows(now) == w.tick_flows(now),
{
    let n = w.flows.len() as int;
    assert forall|i: int| 0 <= i < n implies v.route(i) == w.route(i) by {}
    assert forall|j: int, m: int| 0 <= m <= n implies #[trigger] v.demand_count(j, m)
        == w.demand_count(j, m) && sum_upto(v.deliveries_to(now, j), m) == sum_upto(
        w.deliveries_to(now, j),
        m,
    ) by {
        assert forall|i: int| 0 <= i < m implies #[trigger] v.demands_on(j)(i) == w.demands_on(j)(
            i,
        ) by {
            assert(v.route(i) == w.route(i));
        }
        lemma_sum_equal(v.demands_on(j), w.demands_on(j), m);
        assert forall|i: int| 0 <= i < m implies #[trigger] v.deliveries_to(now, j)(i)
            == w.deliveries_to(now, j)(i) by {
            assert(v.route(i) == w.route(i));
        }
        lemma_sum_equal(v.deliveries_to(now, j), w.deliveries_to(now, j), m);
    }
    assert forall|j: int| v.credit(now, j) == w.credit(now, j) by {
        assert(v.demand_count(j, n) == w.demand_count(j, n));
    }
    assert forall|j: int| 0 <= j < n implies #[trigger] v.settled(now, j) == w.settled(now, j) by {
        assert(v.credit(now, j) == w.credit(now, j));
    }
    assert forall|i: int| 0 <= i < n implies #[trigger] v.draw(now, i) == w.draw(now, i) by {
        assert(v.route(i) == w.route(i));
        match w.route(i) {
            Some(r) => {
                lemma_route_ends(w, i);
                assert(v.settled(now, r.from) == w.settled(now, r.from));
                assert(v.demand_count(r.from, n) == w.demand_count(r.from, n));
                assert(v.demand_count(r.from, i) == w.demand_count(r.from, i));
            },
            None => {},
        }
    }
    assert forall|i: int| 0 <= i < n implies #[trigger] v.peak(now, i) == w.peak(now, i) by {
        assert(v.route(i) == w.route(i));
        assert(v.settled(now, i) == w.settled(now, i));
        assert(v.draw(now, i) == w.draw(now, i));
    }
    assert(v.flows_fit(now) == w.flows_fit(now)) by {
        if w.flows_fit(now) {
            assert forall|i: int| 0 <= i < n implies #[trigger] v.peak(now, i) <= u64::MAX by {
                assert(w.peak(now, i) <= u64::MAX);
            }
        }
        if v.flows_fit(now) {
            assert forall|i: int| 0 <= i < n implies #[trigger] w.peak(now, i) <= u64::MAX by {
                assert(v.peak(now, i) <= u64::MAX);
            }
        }
    }
    assert forall|i: int| 0 <= i < n implies #[trigger] v.tick_flow(now, i) == w.tick_flow(
        now,
        i,
    ) by {
        assert(v.route(i) == w.route(i));
        assert(v.settled(now, i) == w.settled(now, i));
        assert(v.draw(now, i) == w.draw(now, i));
        assert(v.demand_count(i, n) == w.demand_count(i, n));
    }
    assert(v.tick_flows(now) =~= w.tick_flows(now));
}

/// A vector of `n` copies of `x`.
pub fn filled<T: Copy>(n: usize, x: T) -> (v: Vec<T>)
    ensures
        v@.len() == n,
        forall|i: int| 0 <= i < n ==> v@[i] == x,
{
    let mut v: Vec<T> = Vec::new();
    while v.len() < n
        invariant
            v@.len() <= n,
            forall|i: int| 0 <= i < v@.len() ==> v@[i] == x,
        decreases n - v.len(),
    {
        v.push(x);
    }
    v
}

/// Adds up the blobs that have arrived by `now`.
pub fn sum_landed(blobs: &Vec<Blob>, now: Time) -> (s: u128)
    ensures
        s == blob_sum(landed(blobs@, now)),
{
    let mut s: u128 = 0;
    let mut i: usize = 0;
    while i < blobs.len()
        invariant
            i <= blobs.len(),
            s == blob_sum(landed(blobs@.take(i as int), now)),
            s <= i * u64::MAX,
        decreases blobs.len() - i,
    {
        proof {
            let next = blobs@.take(i + 1);
            let b = blobs@[i as int];
            assert(next.drop_last() == blobs@.take(i as int));
            assert(next.last() == b);
            reveal(Seq::filter);
            if b.arrive_at <= now {
                assert(landed(next, now) == landed(blobs@.take(i as int), now).push(b));
                lemma_blob_sum_push(landed(blobs@.take(i as int), now), b);
            } else {
                assert(landed(next, now) == landed(blobs@.take(i as int), now));
            }
            assert((i + 1) * u64::MAX == i * u64::MAX + u64::MAX) by (nonlinear_arith);
            assert(i * u64::MAX <= usize::MAX * u64::MAX) by (nonlinear_arith)
                requires
                    i <= usize::MAX,
            ;
            assert(usize::MAX * u64::MAX <= 0xffff_ffff_ffff_ffff * 0xffff_ffff_ffff_ffff)
                by (nonlinear_arith)
                requires
                    usize::MAX <= 0xffff_ffff_ffff_ffff,
                    u64::MAX == 0xffff_ffff_ffff_ffff,
            ;
        }
        if blobs[i].arrive_at <= now {
            s = s + blobs[i].amount as u128;
        }
        i = i + 1;
    }
    assert(blobs@.take(i as int) == blobs@);
    s
}

/// Adds up all the blobs.
pub fn sum_blobs(blobs: &Vec<Blob>) -> (s: u128)
    ensures
        s == blob_sum(blobs@),
{
    let mut s: u128 = 0;
    let mut i: usize = 0;
    while i < blobs.len()
        invariant
            i <= blobs.len(),
            s == blob_sum(blobs@.take(i as int)),
            s <= i * u64::MAX,
        decreases blobs.len() - i,
    {
        proof {
            let next = blobs@.take(i + 1);
            assert(next.drop_last() == blobs@.take(i as int));
            assert(next.last() == blobs@[i as int]);
            assert((i + 1) * u64::MAX == i * u64::MAX + u64::MAX) by (nonlinear_arith);
            assert(i * u64::MAX <= usize::MAX * u64::MAX) by (nonlinear_arith)
                requires
                    i <= usize::MAX,
            ;
            assert(usize::MAX * u64::MAX <= 0xffff_ffff_ffff_ffff * 0xffff_ffff_ffff_ffff)
                by (nonlinear_arith)
                requires
                    usize::MAX <= 0xffff_ffff_ffff_ffff,
                    u64::MAX == 0xffff_ffff_ffff_ffff,
            ;
        }
        s = s + blobs[i].amount as u128;
        i = i + 1;
    }
    assert(blobs@.take(i as int) == blobs@);
    s
}

/// Copies the blobs that are still under way at `now`.
pub fn keep_under_way(blobs: &Vec<Blob>, now: Time) -> (kept: Vec<Blob>)
    ensures
        kept@ == under_way(blobs@, now),
{
    let mut kept: Vec<Blob> = Vec::new();
    let mut i: usize = 0;
    while i < blobs.len()
        invariant
            i <= blobs.len(),
            kept@ == under_way(blobs@.take(i as int), now),
        decreases blobs.len() - i,
    {
        proof {
            let next = blobs@.take(i + 1);
            let b = blobs@[i as int];
            assert(next.drop_last() == blobs@.take(i as int));
            assert(next.last() == b);
            reveal(Seq::filter);
            if b.arrive_at > now {
                assert(under_way(next, now) == under_way(blobs@.take(i as int), now).push(b));
            } else {
                assert(under_way(next, now) == under_way(blobs@.take(i as int), now));
            }
        }
        if blobs[i].arrive_at > now {
            kept.push(blobs[i]);
        }
        i = i + 1;
    }
    assert(blobs@.take(i as int) == blobs@);
    kept
}

/// Finds the reservoir of the node `node`.
pub fn find_reservoir(flows: &Vec<Flow>, node: NodeId) -> (found: Option<usize>)
    ensures
        match found {
            Some(i) => i < flows@.len() && position(
                reservoir_keys(flow_views(flows@)),
                Some(node),
            ) == Some(i as int),
            None => position(reservoir_keys(flow_views(flows@)), Some(node)) is None,
        },
{
    let ghost keys = reservoir_keys(flow_views(flows@));
    let mut i: usize = 0;
    while i < flows.len()
        invariant
            i <= flows.len(),
            keys == reservoir_keys(flow_views(flows@)),
            forall|j: int| 0 <= j < i ==> keys[j] != Some(node),
        decreases flows.len() - i,
    {
        let here: bool = match &flows[i].host {
            FlowHost::Node(n) => *n == node,
            FlowHost::Link { .. } => false,
        };
        assert(here == (keys[i as int] == Some(node)));
        if here {
            proof {
                assert(is_first(keys, Some(node), i as int));
                lemma_position_found(keys, Some(node), i as int);
            }
            return Some(i);
        }
        i = i + 1;
    }
    proof {
        lemma_position_missing(keys, Some(node));
    }
    None
}

/// `legs` holds the route of every flow of `w`.
pub open spec fn routes_known(w: World, legs: Seq<Option<Leg>>) -> bool {
    &&& legs.len() == w.flows.len()
    &&& forall|i: int|
        0 <= i < legs.len() ==> {
            &&& leg_view(#[trigger] legs[i]) == w.route(i)
            &&& legs[i] matches Some(l) ==> l.from < w.flows.len() && l.to < w.flows.len()
                && l.travel <= MAX_TRAVEL_TIME
        }
}

impl Game {
    /// Works out the route of the flow at position `i`.
    fn resolve(&self, i: usize) -> (leg: Option<Leg>)
        requires
            i < self.flows@.len(),
        ensures
            leg_view(leg) == self@.route(i as int),
            leg matches Some(l) ==> l.from < self.flows@.len() && l.to < self.flows@.len()
                && l.travel <= MAX_TRAVEL_TIME,
    {
        assert(self@.flows[i as int] == self.flows@[i as int]@);
        match &self.flows[i].host {
            FlowHost::Link { id, heading: Some(h), .. } => {
                match find_link(&self.links, *id) {
                    Some(l) => {
                        let link = self.links[l];
                        match (
                            find_reservoir(&self.flows, link.start(h.dir)),
                            find_reservoir(&self.flows, link.end(h.dir)),
                            self.time(&link),
                        ) {
                            (Some(from), Some(to), Some(travel)) => Some(Leg { from, to, travel }),
                            _ => None,
                        }
                    },
                    None => None,
                }
            },
            _ => None,
        }
    }

    /// Works out the routes of all flows.
    fn routes(&self) -> (legs: Vec<Option<Leg>>)
        ensures
            routes_known(self@, legs@),
    {
        let mut legs: Vec<Option<Leg>> = Vec::new();
        let mut i: usize = 0;
        while i < self.flows.len()
            invariant
                i <= self.flows@.len(),
                legs@.len() == i,
                self@.flows.len() == self.flows@.len(),
                forall|j: int|
                    0 <= j < i ==> {
                        &&& leg_view(#[trigger] legs@[j]) == self@.route(j)
                        &&& legs@[j] matches Some(l) ==> l.from < self.flows@.len() && l.to
                            < self.flows@.len() && l.travel <= MAX_TRAVEL_TIME
                    },
            decreases self.flows.len() - i,
        {
            let leg = self.resolve(i);
            legs.push(leg);
            i = i + 1;
        }
        legs
    }
}

impl Game {
    /// Adds up, for every flow, what arrives at it by `now` and how many
    /// flows draw on it.
    fn gather(&self, legs: &Vec<Option<Leg>>, now: Time) -> (r: Option<(Vec<u64>, Vec<usize>)>)
        requires
            routes_known(self@, legs@),
            self.last_tick <= now,
        ensures
            match r {
                Some((credits, counts)) => {
                    &&& credits@.len() == self@.flows.len()
                    &&& counts@.len() == self@.flows.len()
                    &&& forall|j: int|
                        0 <= j < self@.flows.len() ==> #[trigger] credits@[j] == self@.credit(
                            now,
                            j,
                        )
                    &&& forall|j: int|
                        0 <= j < self@.flows.len() ==> #[trigger] counts@[j]
                            == self@.demand_count(j, self@.flows.len() as int)
                },
                None => !self@.flows_fit(now),
            },
    {
        let n = self.flows.len();
        let mut credits: Vec<u64> = filled(n, 0u64);
        let mut counts: Vec<usize> = filled(n, 0usize);
        let mut i: usize = 0;
        while i < n
            invariant
                i <= n,
                n == self.flows@.len(),
                self@.flows.len() == n,
                routes_known(self@, legs@),
                self.last_tick <= now,
                credits@.len() == n,
                counts@.len() == n,
                forall|j: int|
                    0 <= j < n ==> #[trigger] credits@[j] == sum_upto(
                        self@.deliveries_to(now, j),
                        i as int,
                    ),
                forall|j: int|
                    0 <= j < n ==> #[trigger] counts@[j] == sum_upto(self@.demands_on(j), i as int),
            decreases n - i,
        {
            let ghost w = self@;
            let ghost before_credits = credits@;
            let ghost before_counts = counts@;
            assert(w.flows[i as int] == self.flows@[i as int]@);
            match legs[i] {
                Some(leg) => {
                    let arrived: u128 = match &self.flows[i].host {
                        FlowHost::Link { blobs, .. } => sum_landed(blobs, now),
                        FlowHost::Node(_) => 0,
                    };
                    proof {
                        lemma_route_ends(w, i as int);
                        assert(w.route(i as int) == Some(leg@));
                        assert(arrived == w.delivery(now, i as int, leg.to as int));
                    }
                    let total: u128 = if arrived > u64::MAX as u128 {
                        arrived
                    } else {
                        credits[leg.to] as u128 + arrived
                    };
                    if total > u64::MAX as u128 {
                        proof {
                            let j = leg.to as int;
                            assert(credits@[j] == sum_upto(w.deliveries_to(now, j), i as int));
                            assert(w.deliveries_to(now, j)(i as int) == w.delivery(now, i as int, j));
                            assert(sum_upto(w.deliveries_to(now, j), i + 1) >= total);
                            lemma_credit_grows(w, now, j, i + 1);
                            lemma_settled_bounds(w, now, j);
                            assert(w.peak(now, j) > u64::MAX);
                        }
                        return None;
                    }
                    credits.set(leg.to, total as u64);
                    proof {
                        lemma_demand_grows(w, leg.from as int, i as int, i as int);
                    }
                    let seen: usize = counts[leg.from];
                    counts.set(leg.from, seen + 1);
                    proof {
                        assert forall|j: int| 0 <= j < n implies #[trigger] credits@[j] == sum_upto(
                            w.deliveries_to(now, j),
                            i + 1,
                        ) by {
                            assert(before_credits[j] == sum_upto(w.deliveries_to(now, j), i as int));
                            assert(w.deliveries_to(now, j)(i as int) == w.delivery(now, i as int, j));
                        }
                        assert forall|j: int| 0 <= j < n implies #[trigger] counts@[j] == sum_upto(
                            w.demands_on(j),
                            i + 1,
                        ) by {
                            assert(before_counts[j] == sum_upto(w.demands_on(j), i as int));
                            assert(w.demands_on(j)(i as int) == w.demand(i as int, j));
                        }
                    }
                },
                None => {
                    proof {
                        assert(w.route(i as int) is None);
                        assert forall|j: int| 0 <= j < n implies #[trigger] credits@[j] == sum_upto(
                            w.deliveries_to(now, j),
                            i + 1,
                        ) by {
                            assert(before_credits[j] == sum_upto(w.deliveries_to(now, j), i as int));
                            assert(w.deliveries_to(now, j)(i as int) == w.delivery(now, i as int, j));
                        }
                        assert forall|j: int| 0 <= j < n implies #[trigger] counts@[j] == sum_upto(
                            w.demands_on(j),
                            i + 1,
                        ) by {
                            assert(before_counts[j] == sum_upto(w.demands_on(j), i as int));
                            assert(w.demands_on(j)(i as int) == w.demand(i as int, j));
                        }
                    }
                },
            }
            i = i + 1;
        }
        Some((credits, counts))
    }

    /// Works out what every reservoir holds at `now` once arrivals and
    /// generation are settled.  The entries of links are zero.
    fn settle(&self, credits: &Vec<u64>, now: Time) -> (r: Option<Vec<u64>>)
        requires
            self.last_tick <= now,
            credits@.len() == self@.flows.len(),
            forall|j: int|
                0 <= j < self@.flows.len() ==> #[trigger] credits@[j] == self@.credit(now, j),
        ensures
            match r {
                Some(held) => {
                    &&& held@.len() == self@.flows.len()
                    &&& forall|j: int|
                        0 <= j < self@.flows.len() && self@.flows[j].at_node()
                            ==> #[trigger] held@[j] == self@.settled(now, j)
                },
                None => !self@.flows_fit(now),
            },
    {
        let n = self.flows.len();
        let dt: u64 = now - self.last_tick;
        let mut held: Vec<u64> = Vec::new();
        let mut j: usize = 0;
        while j < n
            invariant
                j <= n,
                n == self.flows@.len(),
                self@.flows.len() == n,
                dt == now - self.last_tick,
                credits@.len() == n,
                forall|j: int| 0 <= j < n ==> #[trigger] credits@[j] == self@.credit(now, j),
                held@.len() == j,
                forall|k: int|
                    0 <= k < j && self@.flows[k].at_node() ==> #[trigger] held@[k]
                        == self@.settled(now, k),
            decreases n - j,
        {
            let ghost w = self@;
            assert(w.flows[j as int] == self.flows@[j as int]@);
            match &self.flows[j].host {
                FlowHost::Node(node) => {
                    let gain: u128 = match find_node(&self.nodes, *node) {
                        Some(p) => {
                            assert(self.nodes@[p as int].size * dt <= 0xffff_ffff
                                * 0xffff_ffff_ffff_ffff) by (nonlinear_arith)
                                requires
                                    0 <= self.nodes@[p as int].size <= 0xffff_ffff,
                                    0 <= dt <= 0xffff_ffff_ffff_ffff,
                            ;
                            (self.nodes[p].size as u128) * (dt as u128)
                        },
                        None => 0,
                    };
                    assert(gain == w.yield_of(j as int, dt as int));
                    let a: u128 = self.flows[j].amount as u128 + credits[j] as u128 + gain;
                    assert(a == w.settled(now, j as int));
                    if a > u64::MAX as u128 {
                        assert(w.peak(now, j as int) > u64::MAX);
                        return None;
                    }
                    held.push(a as u64);
                },
                FlowHost::Link { .. } => {
                    held.push(0);
                },
            }
            j = j + 1;
        }
        Some(held)
    }
}

/// Computes what is left in a reservoir holding `a` after `k` links, each
/// asking for `req`, have drawn on it.
pub fn leftover(a: u64, k: usize, req: u128) -> (left: u64)
    ensures
        left == remainder(a as int, k as int, req as int),
{
    if k == 0 {
        assert(req * k == 0) by (nonlinear_arith)
            requires
                k == 0,
        ;
        a
    } else {
        proof {
            lemma_full_service(a as int, k as int, req as int);
        }
        if req <= (a / (k as u64)) as u128 {
            a - (req as u64) * (k as u64)
        } else {
            0
        }
    }
}

/// Computes what the link with `c` links before it takes out of a reservoir
/// holding `a` on which `k` links draw, each asking for `req`.
pub fn portion(a: u64, k: usize, req: u128, c: usize) -> (d: u64)
    requires
        0 < k,
    ensures
        d == share(a as int, k as int, req as int, c as int),
{
    proof {
        lemma_full_service(a as int, k as int, req as int);
        lemma_fundamental_div_mod(a as int, k as int);
        lemma_mod_bound(a as int, k as int);
        lemma_div_pos_is_pos(a as int, k as int);
        assert(a as int / k as int <= k * (a as int / k as int)) by (nonlinear_arith)
            requires
                0 <= a as int / k as int,
                0 < k,
        ;
    }
    let q: u64 = a / (k as u64);
    if req <= q as u128 {
        req as u64
    } else if (c as u64) < a % (k as u64) {
        q + 1
    } else {
        q
    }
}

impl Game {
    /// Builds the flows as they are after the tick at `now`, from what every
    /// reservoir holds once settled and how many flows draw on it.
    fn rebuild(
        &self,
        legs: &Vec<Option<Leg>>,
        held: &Vec<u64>,
        counts: &Vec<usize>,
        now: Time,
    ) -> (r: Option<Vec<Flow>>)
        requires
            routes_known(self@, legs@),
            self.last_tick <= now <= END_OF_TIME,
            held@.len() == self@.flows.len(),
            counts@.len() == self@.flows.len(),
            forall|j: int|
                0 <= j < self@.flows.len() && self@.flows[j].at_node() ==> #[trigger] held@[j]
                    == self@.settled(now, j),
            forall|j: int|
                0 <= j < self@.flows.len() ==> #[trigger] counts@[j] == self@.demand_count(
                    j,
                    self@.flows.len() as int,
                ),
        ensures
            match r {
                Some(next) => self@.flows_fit(now) && flow_views(next@) == self@.tick_flows(now),
                None => !self@.flows_fit(now),
            },
    {
        let n = self.flows.len();
        let dt: u64 = now - self.last_tick;
        assert(self.rate * dt <= 0xffff_ffff_ffff_ffff * 0xffff_ffff_ffff_ffff) by (nonlinear_arith)
            requires
                0 <= self.rate <= 0xffff_ffff_ffff_ffff,
                0 <= dt <= 0xffff_ffff_ffff_ffff,
        ;
        let req: u128 = (self.rate as u128) * (dt as u128);
        let mut seen: Vec<usize> = filled(n, 0usize);
        let mut next: Vec<Flow> = Vec::new();
        let mut i: usize = 0;
        while i < n
            invariant
                i <= n,
                n == self.flows@.len(),
                self@.flows.len() == n,
                routes_known(self@, legs@),
                self.last_tick <= now <= END_OF_TIME,
                req == self@.request(now),
                held@.len() == n,
                counts@.len() == n,
                forall|j: int|
                    0 <= j < n && self@.flows[j].at_node() ==> #[trigger] held@[j]
                        == self@.settled(now, j),
                forall|j: int|
                    0 <= j < n ==> #[trigger] counts@[j] == self@.demand_count(j, n as int),
                seen@.len() == n,
                forall|j: int|
                    0 <= j < n ==> #[trigger] seen@[j] == self@.demand_count(j, i as int),
                next@.len() == i,
                forall|j: int| 0 <= j < i ==> (#[trigger] next@[j])@ == self@.tick_flow(now, j),
                forall|j: int| 0 <= j < i ==> #[trigger] self@.peak(now, j) <= u64::MAX,
            decreases n - i,
        {
            let ghost w = self@;
            let ghost before_seen = seen@;
            assert(w.flows[i as int] == self.flows@[i as int]@);
            match &self.flows[i].host {
                FlowHost::Node(node) => {
                    let left = leftover(held[i], counts[i], req);
                    next.push(Flow { id: self.flows[i].id, amount: left, host: FlowHost::Node(*node) });
                    proof {
                        assert(w.route(i as int) is None);
                        assert forall|j: int| 0 <= j < n implies #[trigger] seen@[j]
                            == w.demand_count(j, i + 1) by {
                            assert(before_seen[j] == w.demand_count(j, i as int));
                            assert(w.demands_on(j)(i as int) == w.demand(i as int, j));
                        }
                    }
                },
                FlowHost::Link { id, heading, blobs } => {
                    match legs[i] {
                        Some(leg) => {
                            proof {
                                assert(w.route(i as int) == Some(leg@));
                                lemma_route_ends(w, i as int);
                                lemma_demand_grows(w, leg.from as int, i + 1, n as int);
                                assert(w.demands_on(leg.from as int)(i as int) == w.demand(
                                    i as int,
                                    leg.from as int,
                                ));
                            }
                            let d = portion(held[leg.from], counts[leg.from], req, seen[leg.from]);
                            assert(d == w.draw(now, i as int));
                            let c: usize = seen[leg.from];
                            seen.set(leg.from, c + 1);
                            let mut queue = keep_under_way(blobs, now);
                            let load: u128 = sum_blobs(&queue);
                            if load > u64::MAX as u128 || load + d as u128 > u64::MAX as u128 {
                                proof {
                                    assert(w.peak(now, i as int) > u64::MAX);
                                }
                                return None;
                            }
                            proof {
                                lemma_blob_sum_push(
                                    queue@,
                                    Blob { amount: d, arrive_at: (now + leg.travel) as Time },
                                );
                            }
                            queue.push(Blob { amount: d, arrive_at: now + leg.travel });
                            next.push(
                                Flow {
                                    id: self.flows[i].id,
                                    amount: (load + d as u128) as u64,
                                    host: FlowHost::Link { id: *id, heading: *heading, blobs: queue },
                                },
                            );
                            proof {
                                assert forall|j: int| 0 <= j < n implies #[trigger] seen@[j]
                                    == w.demand_count(j, i + 1) by {
                                    assert(before_seen[j] == w.demand_count(j, i as int));
                                    assert(w.demands_on(j)(i as int) == w.demand(i as int, j));
                                }
                            }
                        },
                        None => {
                            let load: u128 = sum_blobs(blobs);
                            if load > u64::MAX as u128 {
                                proof {
                                    assert(w.route(i as int) is None);
                                    assert(w.peak(now, i as int) > u64::MAX);
                                }
                                return None;
                            }
                            next.push(
                                Flow {
                                    id: self.flows[i].id,
                                    amount: load as u64,
                                    host: FlowHost::Link {
                                        id: *id,
                                        heading: *heading,
                                        blobs: crate::flow::copy_vec(blobs),
                                    },
                                },
                            );
                            proof {
                                assert(w.route(i as int) is None);
                                assert forall|j: int| 0 <= j < n implies #[trigger] seen@[j]
                                    == w.demand_count(j, i + 1) by {
                                    assert(before_seen[j] == w.demand_count(j, i as int));
                                    assert(w.demands_on(j)(i as int) == w.demand(i as int, j));
                                }
                            }
                        },
                    }
                },
            }
            i = i + 1;
        }
        assert(flow_views(next@) =~= self@.tick_flows(now));
        Some(next)
    }

    /// Computes the flows as they are after the tick at `now`, or nothing
    /// if an amount of that tick does not fit in 64 bits.
    pub(crate) fn next_flows(&self, now: Time) -> (r: Option<Vec<Flow>>)
        requires
            self.last_tick <= now <= END_OF_TIME,
        ensures
            match r {
                Some(next) => self@.flows_fit(now) && flow_views(next@) == self@.tick_flows(now),
                None => !self@.flows_fit(now),
            },
    {
        let legs = self.routes();
        match self.gather(&legs, now) {
            Some((credits, counts)) => match self.settle(&credits, now) {
                Some(held) => self.rebuild(&legs, &held, &counts, now),
                None => None,
            },
            None => None,
        }
    }
}

} // verus!
