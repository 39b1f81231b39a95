//! The engine: what every request does to the world and which responses it
//! brings forth.

use vstd::prelude::*;
use crate::avatar::{Flid, Host, all_arrived, find_flid, find_link, flid_ids, link_ids,
    remove_player, settle_flids, without_player};
use crate::flow::{Blob, Flow, FlowHost, FlowHostView, FlowId, FlowView, Heading, all_disowned,
    copy_vec, disown, flow_views};
use crate::geometry::Time;
use crate::graph::{Dir, LinkId, PlayerId};
use crate::lookup::{is_first, lemma_position_found, lemma_position_missing, position};
use crate::protocol::{Address, AddressResponse, Addressed, Event, PersonalRequest, ReqDir,
    Request, Response, events, noop, nop, only, pair, to_all, to_player};
use crate::consistency::lemma_step_keeps_wf;
use crate::tick::lemma_flows_ignore_avatars;
use crate::world::{END_OF_TIME, Game, LAST_READING, World, now};

verus! {

/// A tick that comes less than this many milliseconds after the last one is
/// ignored.
pub const MIN_TICK_INTERVAL: Time = 200;

/// What a request leads to: the world after it, and the events it brings
/// forth.
pub struct Outcome {
    pub world: World,
    pub events: Seq<Addressed>,
}

/// The ids of `flows`, in order.
pub open spec fn flow_ids(flows: Seq<FlowView>) -> Seq<usize> {
    Seq::new(flows.len(), |i: int| flows[i].id)
}

/// Those of the first `m` flows of `after` that differ from the flow at the
/// same position in `before`.
pub open spec fn changed_upto(before: Seq<FlowView>, after: Seq<FlowView>, m: int) -> Seq<FlowView>
    decreases m,
{
    if m <= 0 {
        Seq::empty()
    } else if after[m - 1] != before[m - 1] {
        changed_upto(before, after, m - 1).push(after[m - 1])
    } else {
        changed_upto(before, after, m - 1)
    }
}

/// The flows of `after` that differ from the flow at the same position in
/// `before`.
pub open spec fn changed_flows(before: Seq<FlowView>, after: Seq<FlowView>) -> Seq<FlowView> {
    changed_upto(before, after, after.len() as int)
}

/// Of flows that are what they were none has changed.
pub proof fn lemma_nothing_changed(flows: Seq<FlowView>, m: int)
    ensures
        changed_upto(flows, flows, m) == Seq::<FlowView>::empty(),
    decreases m,
{
    if m > 0 {
        lemma_nothing_changed(flows, m - 1);
    }
}

impl World {
    /// The request changes nothing and nobody hears of it.
    pub open spec fn ignore(self) -> Outcome {
        Outcome { world: self, events: seq![nop()] }
    }

    /// Time can move on to `now`: `now` is later than the last tick, not
    /// past `END_OF_TIME`, and the amounts of the tick fit in 64 bits.
    pub open spec fn can_advance(self, now: Time) -> bool {
        self.last_tick < now <= END_OF_TIME && self.flows_fit(now)
    }

    /// The world at the time `now`.  Every avatar whose jump has ended by
    /// `now` is parked, whatever `now` is.  Where time can move on to `now`
    /// the flow has ticked and `now` is the time of the last tick; where it
    /// cannot, the flows and the time of the last tick stay as they are.
    pub open spec fn advance(self, now: Time) -> World {
        World {
            flids: all_arrived(self.flids, self.links, now),
            flows: if self.can_advance(now) {
                self.tick_flows(now)
            } else {
                self.flows
            },
            last_tick: if self.can_advance(now) {
                now
            } else {
                self.last_tick
            },
            ..self
        }
    }

    /// A tick at `now` comes too soon after the last one.
    pub open spec fn throttled(self, now: Time) -> bool {
        now - self.last_tick < MIN_TICK_INTERVAL
    }

    /// The player `id` enters at the node at position `pick`: it is
    /// welcomed and everybody gets the new world.  Nothing happens where
    /// there is no such node or the player has an avatar already.
    pub open spec fn join(self, id: PlayerId, pick: int) -> Outcome {
        if 0 <= pick < self.nodes.len() && position(flid_ids(self.flids), id) is None {
            let world = World {
                flids: self.flids.push(Flid { id, host: Host::Node(self.nodes[pick].id) }),
                ..self
            };
            Outcome {
                world,
                events: seq![
                    to_player(id, Event::Hello { id, time: self.last_tick }),
                    to_all(Event::GameState(world)),
                ],
            }
        } else {
            self.ignore()
        }
    }

    /// The player `id` leaves: its avatar goes, the directions it has set
    /// stay in nobody's name, and everybody gets the new world.
    pub open spec fn leave(self, id: PlayerId) -> Outcome {
        let world = World {
            flids: without_player(self.flids, id),
            flows: all_disowned(self.flows, id),
            ..self
        };
        Outcome { world, events: seq![to_all(Event::GameState(world))] }
    }

    /// The player `id` asks for the state at `now`: the world is brought to
    /// that time, and the player alone gets it.
    pub open spec fn report(self, id: PlayerId, now: Time) -> Outcome {
        let world = self.advance(now);
        Outcome { world, events: seq![to_player(id, Event::GameState(world))] }
    }

    /// The world is replaced by `fresh`, and everybody gets it.
    pub open spec fn restart(self, fresh: World) -> Outcome {
        Outcome { world: fresh, events: seq![to_all(Event::GameState(fresh))] }
    }

    /// A tick at `now`: ignored if it comes too soon; otherwise the world
    /// is brought to the time `now` and everybody gets all the avatars,
    /// and before them the flows that have changed, if any has.
    pub open spec fn tick(self, now: Time) -> Outcome {
        if self.throttled(now) {
            self.ignore()
        } else {
            let world = self.advance(now);
            let changed = changed_flows(self.flows, world.flows);
            let avatars = to_all(Event::FlidState { flids: world.flids });
            Outcome {
                world,
                events: if changed.len() == 0 {
                    seq![avatars]
                } else {
                    seq![to_all(Event::FlowState { flows: changed }), avatars]
                },
            }
        }
    }

    /// The player `id` sets off along the link `link_id` at `now`: the
    /// avatar is in transit from then on and everybody gets it.  Ignored if
    /// the player has no avatar, there is no such link, or the avatar cannot
    /// make the jump.
    pub open spec fn start_jump(self, id: PlayerId, link_id: LinkId, now: Time) -> Outcome {
        match (position(flid_ids(self.flids), id), position(link_ids(self.links), link_id)) {
            (Some(p), Some(l)) => match self.jump_spec(self.flids[p].host, self.links[l], now) {
                Some(jump) => {
                    let flid = Flid { id: self.flids[p].id, host: Host::Link(jump) };
                    Outcome {
                        world: World { flids: self.flids.update(p, flid), ..self },
                        events: seq![to_all(Event::FlidUpdate { flid })],
                    }
                },
                None => self.ignore(),
            },
            _ => self.ignore(),
        }
    }

    /// The player `id` turns the flow `flow_id` in the direction `dir`: the
    /// flow takes that direction in the player's name, the blobs under way
    /// on it are dropped, and everybody gets the flow.  Ignored if there is
    /// no such flow or it sits at a node.
    pub open spec fn change_flow(self, id: PlayerId, flow_id: FlowId, dir: ReqDir) -> Outcome {
        match position(flow_ids(self.flows), flow_id) {
            Some(p) => match self.flows[p].host {
                FlowHostView::Link { id: link, .. } => {
                    let flow = FlowView {
                        id: self.flows[p].id,
                        amount: 0,
                        host: FlowHostView::Link {
                            id: link,
                            heading: Some(Heading { dir: dir.dir(), by: Some(id) }),
                            blobs: Seq::empty(),
                        },
                    };
                    Outcome {
                        world: World { flows: self.flows.update(p, flow), ..self },
                        events: seq![to_all(Event::FlowUpdate { flow })],
                    }
                },
                FlowHostView::Node(_) => self.ignore(),
            },
            None => self.ignore(),
        }
    }

    /// What the request `req` leads to, given what the engine takes from
    /// outside: the time `now`, the position `pick` drawn for a new player,
    /// and the world `fresh` generated for a restart.
    pub open spec fn step(self, req: PersonalRequest, now: Time, pick: int, fresh: World) -> Outcome {
        match req.request {
            Request::NewPlayer => self.join(req.player, pick),
            Request::PlayerExit => self.leave(req.player),
            Request::GetState => self.report(req.player, now),
            Request::Restart => self.restart(fresh),
            Request::Calc => self.tick(now),
            Request::Jump { link_id } => self.start_jump(req.player, link_id, now),
            Request::ChangeFlow { flow_id, dir } => self.change_flow(req.player, flow_id, dir),
        }
    }
}

/// Finds the first flow with the id `id`.
pub fn find_flow(flows: &Vec<Flow>, id: FlowId) -> (found: Option<usize>)
    ensures
        match found {
            Some(i) => i < flows@.len() && position(flow_ids(flow_views(flows@)), id) == Some(
                i as int,
            ),
            None => position(flow_ids(flow_views(flows@)), id) is None,
        },
{
    let ghost ids = flow_ids(flow_views(flows@));
    let mut i: usize = 0;
    while i < flows.len()
        invariant
            i <= flows.len(),
            ids == flow_ids(flow_views(flows@)),
            forall|j: int| 0 <= j < i ==> ids[j] != id,
        decreases flows.len() - i,
    {
        assert(ids[i as int] == flows@[i as int].id);
        if flows[i].id == id {
            proof {
                assert(is_first(ids, id, i as int));
                lemma_position_found(ids, id, i as int);
            }
            return Some(i);
        }
        i = i + 1;
    }
    proof {
        lemma_position_missing(ids, id);
    }
    None
}

/// Two queues hold the same blobs in the same order.
pub fn same_blobs(a: &Vec<Blob>, b: &Vec<Blob>) -> (same: bool)
    ensures
        same == (a@ == b@),
{
    if a.len() != b.len() {
        return false;
    }
    let mut i: usize = 0;
    while i < a.len()
        invariant
            i <= a.len(),
            a@.len() == b@.len(),
            forall|j: int| 0 <= j < i ==> a@[j] == b@[j],
        decreases a.len() - i,
    {
        if a[i].amount != b[i].amount || a[i].arrive_at != b[i].arrive_at {
            return false;
        }
        i = i + 1;
    }
    assert(a@ =~= b@);
    true
}

/// Two headings are the same.
pub fn same_heading(a: &Option<Heading>, b: &Option<Heading>) -> (same: bool)
    ensures
        same == (*a == *b),
{
    match (a, b) {
        (None, None) => true,
        (Some(x), Some(y)) => {
            let dirs: bool = match (x.dir, y.dir) {
                (Dir::To1, Dir::To1) => true,
                (Dir::To2, Dir::To2) => true,
                _ => false,
            };
            let players: bool = match (x.by, y.by) {
                (None, None) => true,
                (Some(p), Some(q)) => p == q,
                _ => false,
            };
            dirs && players
        },
        _ => false,
    }
}

/// Two flows have the same value.
pub fn same_flow(a: &Flow, b: &Flow) -> (same: bool)
    ensures
        same == (a@ == b@),
{
    if a.id != b.id || a.amount != b.amount {
        return false;
    }
    match (&a.host, &b.host) {
        (FlowHost::Node(m), FlowHost::Node(n)) => *m == *n,
        (
            FlowHost::Link { id: ia, heading: ha, blobs: ba },
            FlowHost::Link { id: ib, heading: hb, blobs: bb },
        ) => {
            let same = *ia == *ib && same_heading(ha, hb) && same_blobs(ba, bb);
            same
        },
        _ => false,
    }
}

/// Copies the flows of `after` that differ from the flow at the same
/// position in `before`.
fn changed_of(before: &Vec<Flow>, after: &Vec<Flow>) -> (changed: Vec<Flow>)
    requires
        before@.len() == after@.len(),
    ensures
        flow_views(changed@) == changed_flows(flow_views(before@), flow_views(after@)),
{
    let mut changed: Vec<Flow> = Vec::new();
    let mut i: usize = 0;
    while i < after.len()
        invariant
            i <= after.len(),
            before@.len() == after@.len(),
            flow_views(changed@) == changed_upto(
                flow_views(before@),
                flow_views(after@),
                i as int,
            ),
        decreases after.len() - i,
    {
        let ghost so_far = flow_views(changed@);
        if !same_flow(&before[i], &after[i]) {
            changed.push(after[i].duplicate());
            assert(flow_views(changed@) =~= so_far.push(after@[i as int]@));
        }
        i = i + 1;
    }
    changed
}

impl Game {
    /// Brings the world to the time `now`: parks the avatars that have
    /// arrived and, if time can move on, lets the flow tick.  Returns the
    /// flows that the tick has changed, or nothing if time could not move
    /// on.
    pub fn advance(&mut self, now: Time) -> (changed: Option<Vec<Flow>>)
        ensures
            final(self)@ == old(self)@.advance(now),
            match changed {
                Some(flows) => old(self)@.can_advance(now) && flow_views(flows@) == changed_flows(
                    old(self)@.flows,
                    final(self)@.flows,
                ),
                None => !old(self)@.can_advance(now),
            },
    {
        settle_flids(&mut self.flids, &self.links, now);
        if now <= self.last_tick || now > END_OF_TIME {
            return None;
        }
        let ghost before = self@;
        match self.next_flows(now) {
            Some(next) => {
                proof {
                    lemma_flows_ignore_avatars(old(self)@, before, now);
                }
                assert(flow_views(next@).len() == flow_views(self.flows@).len());
                let changed = changed_of(&self.flows, &next);
                self.flows = next;
                self.last_tick = now;
                Some(changed)
            },
            None => {
                proof {
                    lemma_flows_ignore_avatars(old(self)@, before, now);
                }
                None
            },
        }
    }

    /// Reads the clock and brings the world to the time it shows; returns
    /// the time of the last tick.
    pub fn calc(&mut self) -> (time: Time)
        ensures
            exists|now: Time|
                now <= LAST_READING && final(self)@ == #[trigger] old(self)@.advance(now),
            time == final(self)@.last_tick,
    {
        let t = now();
        let _ = self.advance(t);
        self.last_tick
    }

    /// Lets the player `id` enter at the node at position `pick`.
    pub fn join(&mut self, id: PlayerId, pick: usize) -> (out: Vec<AddressResponse>)
        ensures
            (Outcome { world: final(self)@, events: events(out@) }) == old(self)@.join(
                id,
                pick as int,
            ),
    {
        if pick >= self.nodes.len() || find_flid(&self.flids, id).is_some() {
            return only(noop());
        }
        self.flids.push(Flid { id, host: Host::Node(self.nodes[pick].id) });
        let hello = AddressResponse {
            whom: Address::Player(id),
            response: Response::Hello { id, time: self.last_tick },
        };
        let state = AddressResponse {
            whom: Address::All,
            response: Response::GameState(self.snapshot()),
        };
        pair(hello, state)
    }

    /// Lets the player `id` leave.
    pub fn leave(&mut self, id: PlayerId) -> (out: Vec<AddressResponse>)
        ensures
            (Outcome { world: final(self)@, events: events(out@) }) == old(self)@.leave(id),
    {
        remove_player(&mut self.flids, id);
        disown(&mut self.flows, id);
        only(AddressResponse { whom: Address::All, response: Response::GameState(self.snapshot()) })
    }

    /// Moves time on to `now` and hands the player `id` the world.
    pub fn report(&mut self, id: PlayerId, now: Time) -> (out: Vec<AddressResponse>)
        ensures
            (Outcome { world: final(self)@, events: events(out@) }) == old(self)@.report(id, now),
    {
        let _ = self.advance(now);
        only(
            AddressResponse {
                whom: Address::Player(id),
                response: Response::GameState(self.snapshot()),
            },
        )
    }

    /// Replaces the world by a newly generated one, whose clock starts at
    /// `now`, and hands it to everybody.
    pub fn restart(&mut self, now: Time) -> (out: Vec<AddressResponse>)
        ensures
            final(self)@.generated(),
            final(self)@.wf(),
            final(self)@.last_tick == now,
            (Outcome { world: final(self)@, events: events(out@) }) == old(self)@.restart(
                final(self)@,
            ),
    {
        *self = Game::generate(now);
        only(AddressResponse { whom: Address::All, response: Response::GameState(self.snapshot()) })
    }

    /// A tick at the time `now`.
    pub fn tick(&mut self, now: Time) -> (out: Vec<AddressResponse>)
        ensures
            (Outcome { world: final(self)@, events: events(out@) }) == old(self)@.tick(now),
    {
        if now < self.last_tick || now - self.last_tick < MIN_TICK_INTERVAL {
            return only(noop());
        }
        let changed: Vec<Flow> = match self.advance(now) {
            Some(changed) => changed,
            None => {
                let none: Vec<Flow> = Vec::new();
                proof {
                    lemma_nothing_changed(self@.flows, self@.flows.len() as int);
                    assert(flow_views(none@) =~= Seq::<FlowView>::empty());
                }
                none
            },
        };
        let flids = AddressResponse {
            whom: Address::All,
            response: Response::FlidState { flids: copy_vec(&self.flids) },
        };
        assert(flow_views(changed@).len() == changed@.len());
        if changed.len() == 0 {
            only(flids)
        } else {
            let flows = AddressResponse {
                whom: Address::All,
                response: Response::FlowState { flows: changed },
            };
            pair(flows, flids)
        }
    }

    /// Lets the player `id` set off along the link `link_id` at the time
    /// `now`.
    pub fn start_jump(&mut self, id: PlayerId, link_id: LinkId, now: Time) -> (out: Vec<
        AddressResponse,
    >)
        ensures
            (Outcome { world: final(self)@, events: events(out@) }) == old(self)@.start_jump(
                id,
                link_id,
                now,
            ),
    {
        match (find_flid(&self.flids, id), find_link(&self.links, link_id)) {
            (Some(p), Some(l)) => {
                let host = self.flids[p].host;
                let link = self.links[l];
                match self.jump(&host, &link, now) {
                    Some(jump) => {
                        let flid = Flid { id: self.flids[p].id, host: Host::Link(jump) };
                        self.flids.set(p, flid);
                        only(
                            AddressResponse {
                                whom: Address::All,
                                response: Response::FlidUpdate { flid },
                            },
                        )
                    },
                    None => only(noop()),
                }
            },
            _ => only(noop()),
        }
    }

    /// Lets the player `id` turn the flow `flow_id` in the direction `dir`.
    pub fn change_flow(&mut self, id: PlayerId, flow_id: FlowId, dir: ReqDir) -> (out: Vec<
        AddressResponse,
    >)
        ensures
            (Outcome { world: final(self)@, events: events(out@) }) == old(self)@.change_flow(
                id,
                flow_id,
                dir,
            ),
    {
        match find_flow(&self.flows, flow_id) {
            Some(p) => {
                assert(self@.flows[p as int] == self.flows@[p as int]@);
                let link: Option<LinkId> = match &self.flows[p].host {
                    FlowHost::Link { id: link, .. } => Some(*link),
                    FlowHost::Node(_) => None,
                };
                match link {
                    Some(link) => {
                        let heading = Some(Heading { dir: dir.as_dir(), by: Some(id) });
                        let flow = Flow {
                            id: self.flows[p].id,
                            amount: 0,
                            host: FlowHost::Link { id: link, heading, blobs: Vec::new() },
                        };
                        let copy = flow.duplicate();
                        let ghost before = self@.flows;
                        self.flows.set(p, flow);
                        assert(self@.flows =~= before.update(p as int, copy@));
                        only(
                            AddressResponse {
                                whom: Address::All,
                                response: Response::FlowUpdate { flow: copy },
                            },
                        )
                    },
                    None => only(noop()),
                }
            },
            None => only(noop()),
        }
    }

    /// Handles one request: reads the clock or draws random numbers where
    /// the request needs them, changes the world and returns the responses
    /// to send.  Whatever the clock and the generator gave, the outcome is
    /// that of `World::step` for some time that the clock can show, some
    /// position among the nodes and some generated world whose clock starts
    /// at that time; and a consistent world stays consistent.
    pub fn handle(&mut self, req: PersonalRequest) -> (out: Vec<AddressResponse>)
        ensures
            exists|now: Time, pick: int, fresh: World|
                {
                    &&& (Outcome { world: final(self)@, events: events(out@) }) == #[trigger] old(
                        self,
                    )@.step(req, now, pick, fresh)
                    &&& req.request is NewPlayer && old(self)@.nodes.len() > 0 ==> 0 <= pick < old(
                        self,
                    )@.nodes.len()
                    &&& req.request is Restart ==> fresh.generated() && fresh.last_tick == now
                    &&& now <= LAST_READING
                },
            old(self)@.wf() ==> final(self)@.wf(),
    {
        let ghost before = self@;
        match req.request {
            Request::NewPlayer => {
                let pick: usize = self.draw_node();
                let out = self.join(req.player, pick);
                assert((Outcome { world: self@, events: events(out@) }) == before.step(
                    req,
                    0,
                    pick as int,
                    before,
                ));
                proof {
                    if before.wf() {
                        lemma_step_keeps_wf(before, req, 0, pick as int, before);
                    }
                }
                out
            },
            Request::PlayerExit => {
                let out = self.leave(req.player);
                assert((Outcome { world: self@, events: events(out@) }) == before.step(
                    req,
                    0,
                    0,
                    before,
                ));
                proof {
                    if before.wf() {
                        lemma_step_keeps_wf(before, req, 0, 0, before);
                    }
                }
                out
            },
            Request::GetState => {
                let t = now();
                let out = self.report(req.player, t);
                assert((Outcome { world: self@, events: events(out@) }) == before.step(
                    req,
                    t,
                    0,
                    before,
                ));
                proof {
                    if before.wf() {
                        lemma_step_keeps_wf(before, req, t, 0, before);
                    }
                }
                out
            },
            Request::Restart => {
                let t = now();
                let out = self.restart(t);
                assert((Outcome { world: self@, events: events(out@) }) == before.step(
                    req,
                    t,
                    0,
                    self@,
                ));
                out
            },
            Request::Calc => {
                let t = now();
                let out = self.tick(t);
                assert((Outcome { world: self@, events: events(out@) }) == before.step(
                    req,
                    t,
                    0,
                    before,
                ));
                proof {
                    if before.wf() {
                        lemma_step_keeps_wf(before, req, t, 0, before);
                    }
                }
                out
            },
            Request::Jump { link_id } => {
                let t = now();
                let out = self.start_jump(req.player, link_id, t);
                assert((Outcome { world: self@, events: events(out@) }) == before.step(
                    req,
                    t,
                    0,
                    before,
                ));
                proof {
                    if before.wf() {
                        lemma_step_keeps_wf(before, req, t, 0, before);
                    }
                }
                out
            },
            Request::ChangeFlow { flow_id, dir } => {
                let out = self.change_flow(req.player, flow_id, dir);
                assert((Outcome { world: self@, events: events(out@) }) == before.step(
                    req,
                    0,
                    0,
                    before,
                ));
                proof {
                    if before.wf() {
                        lemma_step_keeps_wf(before, req, 0, 0, before);
                    }
                }
                out
            },
        }
    }

    /// Draws the position of a node at random; zero where there are no
    /// nodes, or more than the generator can count.
    pub fn draw_node(&self) -> (pick: usize)
        ensures
            self.nodes@.len() > 0 ==> pick < self.nodes@.len(),
            self.nodes@.len() == 0 || self.nodes@.len() > i64::MAX ==> pick == 0,
    {
        let n = self.nodes.len();
        if n == 0 || n as u64 > 0x7fff_ffff_ffff_ffff {
            0
        } else {
            crate::outside::random_range(0, n as i64) as usize
        }
    }
}

} // verus!
