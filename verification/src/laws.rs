//! What holds of the engine whatever it is asked: the laws of generation,
//! of ticks, of jumps, of flow changes, of restarts and of the order of
//! requests.

use vstd::prelude::*;
use crate::avatar::{Flid, Host, Jump, all_arrived, arrived, flid_ids, link_ids};
use crate::tick::lemma_flows_ignore_avatars;
use crate::consistency::{lemma_found_by_id, lemma_without_player};
use crate::conservation::{total_amount, worths};
use crate::engine::{MIN_TICK_INTERVAL, Outcome, changed_flows, flow_ids};
use crate::flow::{Blob, FlowHostView, Heading, blob_sum};
use crate::generate::{MIN_SEPARATION, linked_to_all, linked_to_nearest};
use crate::geometry::square;
use crate::graph::linked;
use crate::nearest::{nearer, nearest_selection, within};
use crate::geometry::{Time, lemma_travel_time_bound};
use crate::graph::{LinkId, PlayerId};
use crate::lookup::{lemma_position, lemma_position_indexed, position};
use crate::protocol::{Event, PersonalRequest, ReqDir, Request, to_all, to_player};
use crate::sums::lemma_sum_zero;
use crate::graph::Link;
use crate::world::{END_OF_TIME, LAST_READING, World, lemma_generated_is_wf, node_ids};

verus! {

/// In a generated world any two different nodes lie at least
/// `MIN_SEPARATION` apart, and every link joins two different nodes that
/// exist.
pub proof fn lemma_generated_world(w: World)
    requires
        w.generated(),
    ensures
        forall|i: int, j: int|
            0 <= i < w.nodes.len() && 0 <= j < w.nodes.len() && i != j ==> (
            #[trigger] w.nodes[i]).pos.dist2_spec((#[trigger] w.nodes[j]).pos) >= MIN_SEPARATION
                * MIN_SEPARATION,
        forall|l: int|
            0 <= l < w.links.len() ==> {
                &&& (#[trigger] w.links[l]).n1 != w.links[l].n2
                &&& position(node_ids(w.nodes), w.links[l].n1) is Some
                &&& position(node_ids(w.nodes), w.links[l].n2) is Some
            },
{
    assert forall|i: int, j: int|
        0 <= i < w.nodes.len() && 0 <= j < w.nodes.len() && i != j implies (
    #[trigger] w.nodes[i]).pos.dist2_spec((#[trigger] w.nodes[j]).pos) >= MIN_SEPARATION
        * MIN_SEPARATION by {
        if j < i {
            crate::geometry::lemma_dist2_symmetric(w.nodes[i].pos, w.nodes[j].pos);
        }
    }
    assert forall|l: int| 0 <= l < w.links.len() implies {
        &&& (#[trigger] w.links[l]).n1 != w.links[l].n2
        &&& position(node_ids(w.nodes), w.links[l].n1) is Some
        &&& position(node_ids(w.nodes), w.links[l].n2) is Some
    } by {
        lemma_position_indexed(node_ids(w.nodes), w.links[l].n1);
        lemma_position_indexed(node_ids(w.nodes), w.links[l].n2);
    }
}

/// In a generated world no node is alone: every node is linked to two other
/// nodes, and no node but these two and itself lies nearer to it than they
/// do.
pub proof fn lemma_every_node_has_two_links(w: World, i: int)
    requires
        w.generated(),
        0 <= i < w.nodes.len(),
    ensures
        exists|a: int, b: int|
            {
                &&& 0 <= a < w.nodes.len() && 0 <= b < w.nodes.len()
                &&& a != b && a != i && b != i
                &&& #[trigger] linked(w.links, i as usize, a as usize)
                &&& #[trigger] linked(w.links, i as usize, b as usize)
                &&& forall|j: int|
                    0 <= j < w.nodes.len() && j != i && j != a && j != b ==> {
                        &&& w.nodes[i].pos.dist2_spec(w.nodes[a].pos) <= w.nodes[i].pos.dist2_spec(
                            (#[trigger] w.nodes[j]).pos,
                        )
                        &&& w.nodes[i].pos.dist2_spec(w.nodes[b].pos) <= w.nodes[i].pos.dist2_spec(
                            w.nodes[j].pos,
                        )
                    }
            },
{
    let pos = w.nodes[i].pos;
    assert(linked_to_nearest(w.nodes, w.links, i));
    let near = nearest_selection(pos, w.nodes, 3, 0);
    assert(linked_to_all(w.nodes, w.links, i, near));
    // All three places are taken: there are more than two nodes.
    if near.len() < 3 {
        assert(within(pos, w.nodes[0], 0));
        assert(within(pos, w.nodes[1], 0));
        assert(within(pos, w.nodes[2], 0));
        assert(near.contains(0) && near.contains(1) && near.contains(2));
        let q0 = choose|q: int| 0 <= q < near.len() && near[q] == 0;
        let q1 = choose|q: int| 0 <= q < near.len() && near[q] == 1;
        let q2 = choose|q: int| 0 <= q < near.len() && near[q] == 2;
        assert(false);
    }
    // The first place is the node's own: all others lie apart from it.
    assert(square(0) == 0);
    assert(pos.dist2_spec(pos) == 0);
    if near[0] != i {
        assert(within(pos, w.nodes[i], 0));
        if near.contains(i) {
            let q = choose|q: int| 0 <= q < near.len() && near[q] == i;
            assert(nearer(pos, w.nodes, near[0], near[q]));
        } else {
            assert(nearer(pos, w.nodes, near[0], i));
        }
        if near[0] < i {
            assert(w.nodes[near[0]].pos.dist2_spec(w.nodes[i].pos) >= MIN_SEPARATION
                * MIN_SEPARATION);
            crate::geometry::lemma_dist2_symmetric(w.nodes[near[0]].pos, pos);
        } else {
            assert(w.nodes[i].pos.dist2_spec(w.nodes[near[0]].pos) >= MIN_SEPARATION
                * MIN_SEPARATION);
        }
        assert(false);
    }
    let a = near[1];
    let b = near[2];
    assert(nearer(pos, w.nodes, near[0], near[1]));
    assert(nearer(pos, w.nodes, near[0], near[2]));
    assert(nearer(pos, w.nodes, near[1], near[2]));
    assert(w.nodes[a].id == a && w.nodes[b].id == b && w.nodes[i].id == i);
    assert(linked(w.links, i as usize, a as usize));
    assert(linked(w.links, i as usize, b as usize));
    assert forall|j: int| 0 <= j < w.nodes.len() && j != i && j != a && j != b implies {
        &&& pos.dist2_spec(w.nodes[a].pos) <= pos.dist2_spec((#[trigger] w.nodes[j]).pos)
        &&& pos.dist2_spec(w.nodes[b].pos) <= pos.dist2_spec(w.nodes[j].pos)
    } by {
        assert(within(pos, w.nodes[j], 0));
        assert(!near.contains(j)) by {
            if near.contains(j) {
                let q = choose|q: int| 0 <= q < near.len() && near[q] == j;
                assert(false);
            }
        }
        assert(nearer(pos, w.nodes, near[1], j));
        assert(nearer(pos, w.nodes, near[2], j));
    }
}

/// A tick that comes less than `MIN_TICK_INTERVAL` after a tick that was
/// applied is ignored: the answer is the no-op for nobody, and the world,
/// the time of its last tick included, stays as it is.
pub proof fn lemma_second_tick_is_ignored(w: World, first: Time, second: Time)
    requires
        w.tick(first).world.last_tick == first,
        second - first < MIN_TICK_INTERVAL,
    ensures
        w.tick(first).world.tick(second) == w.tick(first).world.ignore(),
        w.tick(first).world.tick(second).world.last_tick == first,
{
}

/// A tick that goes through is answered with the avatars alone where no
/// flow has changed, and with the changed flows before them where one has.
/// Either way the answer is for everybody.
pub proof fn lemma_tick_answer(w: World, now: Time)
    requires
        !w.throttled(now),
    ensures
        ({
            let out = w.tick(now);
            let changed = changed_flows(w.flows, out.world.flows);
            let avatars = to_all(Event::FlidState { flids: all_arrived(w.flids, w.links, now) });
            &&& out.world == w.advance(now)
            &&& changed.len() == 0 ==> out.events == seq![avatars]
            &&& changed.len() > 0 ==> out.events == seq![
                to_all(Event::FlowState { flows: changed }),
                avatars,
            ]
        }),
{
}

/// In a world without flows a tick that goes through, at a time not past
/// `END_OF_TIME`, makes that time the time of the last tick and is
/// answered with the one response: all the avatars, those that have arrived
/// parked, for everybody.
pub proof fn lemma_tick_without_flows(w: World, now: Time)
    requires
        w.flows.len() == 0,
        !w.throttled(now),
        now <= END_OF_TIME,
    ensures
        w.tick(now).world.last_tick == now,
        w.tick(now).world.flids == all_arrived(w.flids, w.links, now),
        w.tick(now).events == seq![
            to_all(Event::FlidState { flids: all_arrived(w.flids, w.links, now) }),
        ],
{
    assert(w.flows_fit(now));
    assert(w.can_advance(now));
    assert(w.tick_flows(now).len() == 0);
    assert(changed_flows(w.flows, w.advance(now).flows).len() == 0);
}

/// The time of the last tick never runs back, but on a restart; and it moves
/// on to nothing but the time of a tick or a snapshot.
pub proof fn lemma_time_never_runs_back(w: World, input: Input)
    requires
        !(input.req.request is Restart),
    ensures
        w.after(input).last_tick >= w.last_tick,
        w.after(input).last_tick == w.last_tick || ((input.req.request is Calc
            || input.req.request is GetState) && w.after(input).last_tick == input.now),
{
}

/// The avatar of the player `id` is parked at a node that the link
/// `link_id` touches.
pub open spec fn can_jump(w: World, id: PlayerId, link_id: LinkId) -> bool {
    match position(flid_ids(w.flids), id) {
        Some(p) => match w.flids[p].host {
            Host::Node(n) => link_id < w.links.len() && w.links[link_id as int].touches(n),
            Host::Link(_) => false,
        },
        None => false,
    }
}

/// In a consistent world, and before `END_OF_TIME`, a jump succeeds if and
/// only if the player's avatar is parked at a node that the link touches.
/// It then puts the avatar in transit along that link, away from that node,
/// from `now` until `now` plus the travel time between the link's ends, and
/// tells everybody; otherwise nothing happens.
pub proof fn lemma_jump_validity(w: World, id: PlayerId, link_id: LinkId, now: Time)
    requires
        w.wf(),
        now <= END_OF_TIME,
    ensures
        !can_jump(w, id, link_id) ==> w.start_jump(id, link_id, now) == w.ignore(),
        can_jump(w, id, link_id) ==> {
            let p = position(flid_ids(w.flids), id)->0;
            let link = w.links[link_id as int];
            let flid = Flid {
                id,
                host: Host::Link(
                    Jump {
                        id: link_id,
                        dir: link.away_from(w.flids[p].host->Node_0)->0,
                        start_at: now,
                        arrive_at: (now + w.nodes[link.n1 as int].pos.time_to_spec(
                            w.nodes[link.n2 as int].pos,
                        )) as Time,
                    },
                ),
            };
            &&& link.away_from(w.flids[p].host->Node_0) is Some
            &&& now + w.nodes[link.n1 as int].pos.time_to_spec(w.nodes[link.n2 as int].pos)
                <= u64::MAX
            &&& w.start_jump(id, link_id, now) == Outcome {
                world: World { flids: w.flids.update(p, flid), ..w },
                events: seq![to_all(Event::FlidUpdate { flid })],
            }
        },
{
    lemma_found_by_id(w);
    lemma_position(flid_ids(w.flids), id);
    if can_jump(w, id, link_id) {
        let link = w.links[link_id as int];
        lemma_travel_time_bound(w.nodes[link.n1 as int].pos, w.nodes[link.n2 as int].pos);
        assert(position(link_ids(w.links), link_id) == Some(link_id as int));
        assert(position(node_ids(w.nodes), link.n1) == Some(link.n1 as int));
        assert(position(node_ids(w.nodes), link.n2) == Some(link.n2 as int));
    } else {
        match (position(flid_ids(w.flids), id), position(link_ids(w.links), link_id)) {
            (Some(p), Some(l)) => {
                assert(l == link_id);
            },
            _ => {},
        }
    }
}

/// Where both ends of a link exist and the time is not past `END_OF_TIME`,
/// an avatar can make the jump along the link if and only if it is parked
/// at one of the link's ends.
pub proof fn lemma_jump_iff(w: World, host: Host, link: Link, time: Time)
    requires
        position(node_ids(w.nodes), link.n1) is Some,
        position(node_ids(w.nodes), link.n2) is Some,
        time <= END_OF_TIME,
    ensures
        w.jump_spec(host, link, time) is Some <==> (host matches Host::Node(n) && link.touches(n)),
{
}

/// A jump that the engine handles, stamped with a time that the clock can
/// show, succeeds in a consistent world if and only if the player's avatar
/// is parked at a node that the link touches: every clock reading lies
/// before `END_OF_TIME`.  It is answered with the avatar, for everybody, or
/// else with the no-op for nobody.
pub proof fn lemma_handled_jump(w: World, player: PlayerId, link_id: LinkId, input: Input)
    requires
        w.wf(),
        input.req == (PersonalRequest { player, request: Request::Jump { link_id } }),
        input.now <= LAST_READING,
    ensures
        !can_jump(w, player, link_id) ==> w.step(input.req, input.now, input.pick, input.fresh)
            == w.ignore(),
        can_jump(w, player, link_id) ==> {
            let out = w.step(input.req, input.now, input.pick, input.fresh);
            let p = position(flid_ids(w.flids), player)->0;
            let link = w.links[link_id as int];
            &&& out.events.len() == 1
            &&& out.events[0] == to_all(Event::FlidUpdate { flid: out.world.flids[p] })
            &&& out.world.flids[p].id == player
            &&& out.world.flids[p].host matches Host::Link(jump) && jump.id == link_id
                && jump.start_at == input.now && jump.arrive_at == input.now
                + w.nodes[link.n1 as int].pos.time_to_spec(w.nodes[link.n2 as int].pos)
        },
{
    lemma_jump_validity(w, player, link_id, input.now);
    if can_jump(w, player, link_id) {
        lemma_position(flid_ids(w.flids), player);
        let out = w.step(input.req, input.now, input.pick, input.fresh);
        assert(out == w.start_jump(player, link_id, input.now));
        let p = position(flid_ids(w.flids), player)->0;
        assert(0 <= p < w.flids.len());
        let link = w.links[link_id as int];
        let t = w.nodes[link.n1 as int].pos.time_to_spec(w.nodes[link.n2 as int].pos);
        lemma_travel_time_bound(w.nodes[link.n1 as int].pos, w.nodes[link.n2 as int].pos);
        let flid = Flid {
            id: player,
            host: Host::Link(
                Jump {
                    id: link_id,
                    dir: link.away_from(w.flids[p].host->Node_0)->0,
                    start_at: input.now,
                    arrive_at: (input.now + t) as Time,
                },
            ),
        };
        assert(out.events == seq![to_all(Event::FlidUpdate { flid })]);
        assert(out.world.flids == w.flids.update(p, flid));
        assert(out.world.flids[p] == flid);
        assert(out.events.len() == 1);
        assert(out.events[0] == to_all(Event::FlidUpdate { flid }));
    }
}

/// Turning a flow that sits at a node, or that does not exist, does
/// nothing.  Turning a flow on a link drops every blob under way on it,
/// gives it the direction asked for in the player's name, leaves every
/// other flow as it is, and tells everybody.
pub proof fn lemma_change_flow_validity(w: World, id: PlayerId, flow_id: usize, dir: ReqDir)
    ensures
        match position(flow_ids(w.flows), flow_id) {
            Some(p) => if w.flows[p].at_node() {
                w.change_flow(id, flow_id, dir) == w.ignore()
            } else {
                let after = w.change_flow(id, flow_id, dir).world;
                &&& after.flows.len() == w.flows.len()
                &&& after.flows[p].blobs().len() == 0
                &&& after.flows[p].worth() == 0
                &&& after.flows[p].host matches FlowHostView::Link { heading, .. } && heading
                    == Some(Heading { dir: dir.dir(), by: Some(id) })
                &&& forall|i: int| 0 <= i < w.flows.len() && i != p ==> after.flows[i] == w.flows[i]
                &&& w.change_flow(id, flow_id, dir).events == seq![
                    to_all(Event::FlowUpdate { flow: after.flows[p] }),
                ]
            },
            None => w.change_flow(id, flow_id, dir) == w.ignore(),
        },
{
    lemma_position(flow_ids(w.flows), flow_id);
    assert(blob_sum(Seq::<Blob>::empty()) == 0);
}

/// After a restart the world is the newly generated one: it is consistent,
/// no avatar is left, every flow is empty and without a direction, and
/// everybody gets the new world.
pub proof fn lemma_restart_clears(w: World, fresh: World)
    requires
        fresh.generated(),
    ensures
        w.restart(fresh).world == fresh,
        w.restart(fresh).events == seq![to_all(Event::GameState(fresh))],
        fresh.wf(),
        fresh.flids.len() == 0,
        fresh.flows.len() == fresh.links.len() + fresh.nodes.len(),
        forall|i: int|
            0 <= i < fresh.flows.len() ==> (#[trigger] fresh.flows[i]).amount == 0
                && fresh.flows[i].blobs().len() == 0 && !(fresh.flows[i].host matches FlowHostView::Link {
                heading: Some(_),
                ..
            }),
        total_amount(fresh.flows) == 0,
{
    lemma_generated_is_wf(fresh);
    assert forall|i: int| 0 <= i < fresh.flows.len() implies #[trigger] worths(fresh.flows)(i)
        == 0 by {
        assert(blob_sum(Seq::<Blob>::empty()) == 0);
    }
    lemma_sum_zero(worths(fresh.flows), fresh.flows.len() as int);
}

/// What the engine takes from outside for one request: the time, the
/// position drawn for a new player, and the world generated for a restart.
pub struct Input {
    pub req: PersonalRequest,
    pub now: Time,
    pub pick: int,
    pub fresh: World,
}

impl World {
    /// The world after `input`.
    pub open spec fn after(self, input: Input) -> World {
        self.step(input.req, input.now, input.pick, input.fresh).world
    }

    /// The world after all of `inputs`, the first of them first.
    pub open spec fn run(self, inputs: Seq<Input>) -> World
        decreases inputs.len(),
    {
        if inputs.len() == 0 {
            self
        } else {
            self.run(inputs.drop_last()).after(inputs.last())
        }
    }
}

/// Requests take effect in the order they are handled in: the world after
/// two runs of requests is the world that the second run makes of what the
/// first has left.
pub proof fn lemma_run_in_order(w: World, first: Seq<Input>, second: Seq<Input>)
    ensures
        w.run(first + second) == w.run(first).run(second),
    decreases second.len(),
{
    if second.len() == 0 {
        assert(first + second =~= first);
    } else {
        lemma_run_in_order(w, first, second.drop_last());
        assert((first + second).drop_last() =~= first + second.drop_last());
        assert((first + second).last() == second.last());
    }
}

/// Of two requests the first takes effect first.
pub proof fn lemma_two_in_order(w: World, first: Input, second: Input)
    ensures
        w.run(seq![first, second]) == w.after(first).after(second),
{
    let both = seq![first, second];
    assert(both.drop_last() =~= seq![first]);
    assert(seq![first].drop_last() =~= Seq::<Input>::empty());
    assert(w.run(seq![first]) == w.run(Seq::<Input>::empty()).after(first));
}

/// A snapshot asked for right after a request shows what that request has
/// left: the player is handed the world after the request, brought to the
/// time of asking.  Where time cannot move on, that is the very world the
/// request has left, but for the avatars that have arrived by then.
pub proof fn lemma_snapshot_reflects_command(w: World, command: Input, asker: PlayerId, later: Time)
    ensures
        ({
            let left = w.after(command);
            let answer = left.report(asker, later);
            &&& answer.events == seq![to_player(asker, Event::GameState(left.advance(later)))]
            &&& answer.world == left.advance(later)
            &&& !left.can_advance(later) ==> left.advance(later) == World {
                flids: all_arrived(left.flids, left.links, later),
                ..left
            }
        }),
{
}

/// Bringing the world to the time `now` keeps every avatar with its player,
/// leaves a parked avatar where it is and an avatar whose arrival time has
/// not come on its way, and parks, at the end of its link, every avatar
/// whose arrival time has come.  That is so whatever `now` is: also where
/// it is the time of the last tick, or earlier.
pub proof fn lemma_advance_moves_avatars(w: World, now: Time, p: int)
    requires
        0 <= p < w.flids.len(),
    ensures
        w.advance(now).flids.len() == w.flids.len(),
        w.advance(now).flids[p].id == w.flids[p].id,
        w.flids[p].host is Node ==> w.advance(now).flids[p] == w.flids[p],
        w.flids[p].host matches Host::Link(jump) ==> match position(link_ids(w.links), jump.id) {
            Some(l) => if jump.arrive_at <= now {
                w.advance(now).flids[p].host == Host::Node(w.links[l].target(jump.dir))
            } else {
                w.advance(now).flids[p] == w.flids[p]
            },
            None => w.advance(now).flids[p] == w.flids[p],
        },
{
    assert(w.advance(now).flids[p] == arrived(w.flids[p], w.links, now));
}

/// Once a consistent world is brought to the time `now`, no avatar is in
/// transit whose arrival time has come.
pub proof fn lemma_arrived_are_parked(w: World, now: Time)
    requires
        w.wf(),
    ensures
        forall|p: int|
            0 <= p < w.advance(now).flids.len() ==> !((#[trigger] w.advance(
                now,
            ).flids[p]).host matches Host::Link(jump) && jump.arrive_at <= now),
{
    lemma_found_by_id(w);
    assert forall|p: int| 0 <= p < w.advance(now).flids.len() implies !((#[trigger] w.advance(
        now,
    ).flids[p]).host matches Host::Link(jump) && jump.arrive_at <= now) by {
        lemma_advance_moves_avatars(w, now, p);
        match w.flids[p].host {
            Host::Link(jump) => {
                assert(position(link_ids(w.links), jump.id) == Some(jump.id as int));
            },
            Host::Node(_) => {},
        }
    }
}

/// Bringing the world to the same time twice is bringing it there once.
pub proof fn lemma_advance_twice(w: World, now: Time)
    ensures
        w.advance(now).advance(now) == w.advance(now),
{
    let once = w.advance(now);
    if !w.can_advance(now) {
        lemma_flows_ignore_avatars(w, once, now);
    }
    assert(!once.can_advance(now));
    assert forall|p: int| 0 <= p < once.flids.len() implies arrived(
        #[trigger] once.flids[p],
        once.links,
        now,
    ) == once.flids[p] by {
        assert(once.flids[p] == arrived(w.flids[p], w.links, now));
    }
    assert(all_arrived(once.flids, once.links, now) =~= once.flids);
}

/// An avatar parked at a node stays parked there whatever is asked, unless
/// its own player jumps or leaves, or the world is restarted.
pub proof fn lemma_parked_until_jump(w: World, input: Input, p: int)
    requires
        0 <= p < w.flids.len(),
        w.flids[p].host is Node,
        !(input.req.request is Restart),
        !(input.req.player == w.flids[p].id && (input.req.request is Jump
            || input.req.request is PlayerExit)),
    ensures
        w.after(input).flids.contains(w.flids[p]),
{
    let after = w.after(input);
    let f = w.flids[p];
    match input.req.request {
        Request::NewPlayer => {
            if after.flids.len() > w.flids.len() {
                assert(after.flids[p] == f);
            } else {
                assert(after.flids[p] == f);
            }
        },
        Request::PlayerExit => {
            lemma_without_player(w.flids, input.req.player);
            assert(w.flids.contains(f));
        },
        Request::GetState => {
            lemma_advance_moves_avatars(w, input.now, p);
            assert(after.flids[p] == f);
        },
        Request::Restart => {},
        Request::Calc => {
            lemma_advance_moves_avatars(w, input.now, p);
            assert(after.flids[p] == f);
        },
        Request::Jump { link_id } => {
            lemma_position(flid_ids(w.flids), input.req.player);
            match position(flid_ids(w.flids), input.req.player) {
                Some(q) => {
                    assert(flid_ids(w.flids)[q] == w.flids[q].id);
                    assert(q != p);
                    assert(after.flids[p] == f);
                },
                None => {
                    assert(after.flids[p] == f);
                },
            }
        },
        Request::ChangeFlow { .. } => {
            assert(after.flids[p] == f);
        },
    }
}

/// An avatar in transit is parked by nothing but the passing of time: after
/// any request but a restart or its own player's leaving, it is either as
/// it was, or the request was a tick or a snapshot at a time that has
/// reached its arrival time.
pub proof fn lemma_in_transit_until_arrival(w: World, input: Input, p: int)
    requires
        0 <= p < w.flids.len(),
        w.flids[p].host is Link,
        !(input.req.request is Restart),
        !(input.req.player == w.flids[p].id && input.req.request is PlayerExit),
    ensures
        w.after(input).flids.contains(w.flids[p]) || ((input.req.request is Calc
            || input.req.request is GetState) && w.flids[p].host->Link_0.arrive_at <= input.now),
{
    let after = w.after(input);
    let f = w.flids[p];
    match input.req.request {
        Request::NewPlayer => {
            assert(after.flids[p] == f);
        },
        Request::PlayerExit => {
            lemma_without_player(w.flids, input.req.player);
            assert(w.flids.contains(f));
        },
        Request::GetState => {
            lemma_advance_moves_avatars(w, input.now, p);
            if after.flids[p] == f {
                assert(after.flids.contains(f));
            }
        },
        Request::Restart => {},
        Request::Calc => {
            lemma_advance_moves_avatars(w, input.now, p);
            if after.flids[p] == f {
                assert(after.flids.contains(f));
            }
        },
        Request::Jump { link_id } => {
            lemma_position(flid_ids(w.flids), input.req.player);
            match position(flid_ids(w.flids), input.req.player) {
                Some(q) => {
                    assert(after.flids[p] == f);
                },
                None => {
                    assert(after.flids[p] == f);
                },
            }
        },
        Request::ChangeFlow { .. } => {
            assert(after.flids[p] == f);
        },
    }
}

} // verus!
