//! The world stays consistent: whatever request the engine handles, a
//! consistent world is consistent afterwards, and only a restart touches
//! nodes and links.

use vstd::prelude::*;
use crate::avatar::{Flid, Host, arrived, flid_ids, flids_valid, link_ids, players_distinct,
    without_player};
use crate::engine::flow_ids;
use crate::flow::{Blob, FlowHostView, blob_sum, disowned};
use crate::geometry::{Time, lemma_travel_time_bound};
use crate::graph::{Link, PlayerId};
use crate::lookup::{lemma_position, lemma_position_indexed, position};
use crate::protocol::{PersonalRequest, ReqDir, Request};
use crate::world::{World, lemma_generated_is_wf, node_ids};

verus! {

/// Every avatar that is left after a player has gone was there before and
/// belongs to another player, and the avatars that are left are in the order
/// they were in.
pub proof fn lemma_without_player(flids: Seq<Flid>, id: PlayerId)
    ensures
        without_player(flids, id).len() <= flids.len(),
        forall|k: int|
            0 <= k < without_player(flids, id).len() ==> (#[trigger] without_player(
                flids,
                id,
            )[k]).id != id && flids.contains(without_player(flids, id)[k]),
        players_distinct(flids) ==> players_distinct(without_player(flids, id)),
        forall|f: Flid| flids.contains(f) && f.id != id ==> without_player(flids, id).contains(f),
    decreases flids.len(),
{
    reveal(Seq::filter);
    let pred = |f: Flid| f.id != id;
    let out = without_player(flids, id);
    if flids.len() > 0 {
        let rest = flids.drop_last();
        let last = flids.last();
        lemma_without_player(rest, id);
        let sub = without_player(rest, id);
        assert forall|k: int| 0 <= k < out.len() implies (#[trigger] out[k]).id != id
            && flids.contains(out[k]) by {
            if k < sub.len() {
                assert(out[k] == sub[k]);
                assert(rest.contains(sub[k]));
                let q = choose|q: int| 0 <= q < rest.len() && rest[q] == sub[k];
                assert(flids[q] == sub[k]);
            } else {
                assert(out[k] == last);
                assert(flids[flids.len() - 1] == last);
            }
        }
        if players_distinct(flids) {
            assert(players_distinct(rest)) by {
                assert forall|i: int, j: int| 0 <= i < j < rest.len() implies (#[trigger] rest[i]).id
                    != (#[trigger] rest[j]).id by {
                    assert(rest[i] == flids[i]);
                    assert(rest[j] == flids[j]);
                }
            }
            assert forall|i: int, j: int| 0 <= i < j < out.len() implies (#[trigger] out[i]).id != (
            #[trigger] out[j]).id by {
                if j < sub.len() {
                    assert(out[i] == sub[i]);
                    assert(out[j] == sub[j]);
                } else {
                    assert(out[i] == sub[i]);
                    assert(out[j] == last);
                    assert(rest.contains(sub[i]));
                    let q = choose|q: int| 0 <= q < rest.len() && rest[q] == sub[i];
                    assert(flids[q] == sub[i]);
                    assert(flids[flids.len() - 1] == last);
                }
            }
        }
        assert forall|f: Flid| flids.contains(f) && f.id != id implies out.contains(f) by {
            let q = choose|q: int| 0 <= q < flids.len() && flids[q] == f;
            if q < rest.len() {
                assert(rest[q] == f);
                assert(rest.contains(f));
                assert(sub.contains(f));
                let k = choose|k: int| 0 <= k < sub.len() && sub[k] == f;
                assert(out[k] == f);
            } else {
                assert(f == last);
                assert(out[out.len() - 1] == f);
            }
        }
    }
}

/// Taking a player's avatars away leaves the others valid.
proof fn lemma_without_player_valid(flids: Seq<Flid>, id: PlayerId, nodes: int, links: int)
    requires
        flids_valid(flids, nodes, links),
    ensures
        flids_valid(without_player(flids, id), nodes, links),
{
    lemma_without_player(flids, id);
    let out = without_player(flids, id);
    assert forall|k: int| 0 <= k < out.len() implies match (#[trigger] out[k]).host {
        Host::Node(n) => n < nodes,
        Host::Link(jump) => jump.id < links && jump.start_at <= jump.arrive_at,
    } by {
        assert(flids.contains(out[k]));
        let q = choose|q: int| 0 <= q < flids.len() && flids[q] == out[k];
        assert(flids[q] == out[k]);
    }
}

/// A consistent world is consistent after a player has entered.
pub proof fn lemma_join_keeps_wf(w: World, id: PlayerId, pick: int)
    requires
        w.wf(),
    ensures
        w.join(id, pick).world.wf(),
{
    if 0 <= pick < w.nodes.len() && position(flid_ids(w.flids), id) is None {
        let flid = Flid { id, host: Host::Node(w.nodes[pick].id) };
        let after = w.flids.push(flid);
        lemma_position(flid_ids(w.flids), id);
        assert forall|i: int, j: int| 0 <= i < j < after.len() implies (#[trigger] after[i]).id != (
        #[trigger] after[j]).id by {
            assert(after[i] == w.flids[i]);
            if j < w.flids.len() {
                assert(after[j] == w.flids[j]);
            } else {
                assert(flid_ids(w.flids)[i] != id);
            }
        }
        assert forall|k: int| 0 <= k < after.len() implies match (#[trigger] after[k]).host {
            Host::Node(n) => n < w.nodes.len(),
            Host::Link(jump) => jump.id < w.links.len() && jump.start_at <= jump.arrive_at,
        } by {
            if k < w.flids.len() {
                assert(after[k] == w.flids[k]);
            }
        }
    }
}

/// A consistent world is consistent after a player has left.
pub proof fn lemma_leave_keeps_wf(w: World, id: PlayerId)
    requires
        w.wf(),
    ensures
        w.leave(id).world.wf(),
{
    lemma_without_player(w.flids, id);
    lemma_without_player_valid(w.flids, id, w.nodes.len() as int, w.links.len() as int);
    let after = w.leave(id).world;
    assert forall|i: int| 0 <= i < w.links.len() implies match (#[trigger] after.flows[i]).host {
        FlowHostView::Link { id: link, heading, blobs } => {
            &&& link == w.links[i].id
            &&& after.flows[i].amount == blob_sum(blobs)
            &&& heading is None ==> blobs.len() == 0
        },
        FlowHostView::Node(_) => false,
    } by {
        assert(after.flows[i] == disowned(w.flows[i], id));
    }
    assert forall|i: int| w.links.len() <= i < after.flows.len() implies (
    #[trigger] after.flows[i]).host == FlowHostView::Node(w.nodes[i - w.links.len()].id) by {
        assert(after.flows[i] == disowned(w.flows[i], id));
    }
    assert forall|i: int| 0 <= i < after.flows.len() implies (#[trigger] after.flows[i]).id == i by {
        assert(after.flows[i] == disowned(w.flows[i], id));
    }
}

/// In a consistent world a link is found by its id at the position of that
/// id, and a node likewise.
pub proof fn lemma_found_by_id(w: World)
    requires
        w.wf(),
    ensures
        forall|id: usize| #[trigger]
            position(link_ids(w.links), id) == if id < w.links.len() {
                Some(id as int)
            } else {
                None::<int>
            },
        forall|id: usize| #[trigger]
            position(node_ids(w.nodes), id) == if id < w.nodes.len() {
                Some(id as int)
            } else {
                None::<int>
            },
{
    assert forall|id: usize| #[trigger]
        position(link_ids(w.links), id) == if id < w.links.len() {
            Some(id as int)
        } else {
            None::<int>
        } by {
        lemma_position_indexed(link_ids(w.links), id);
    }
    assert forall|id: usize| #[trigger]
        position(node_ids(w.nodes), id) == if id < w.nodes.len() {
            Some(id as int)
        } else {
            None::<int>
        } by {
        lemma_position_indexed(node_ids(w.nodes), id);
    }
}

/// A consistent world is consistent once it is brought to another time.
pub proof fn lemma_advance_keeps_wf(w: World, now: Time)
    requires
        w.wf(),
    ensures
        w.advance(now).wf(),
{
    let after = w.advance(now);
    lemma_found_by_id(w);
    assert forall|i: int| 0 <= i < after.flids.len() implies match (#[trigger] after.flids[i]).host {
        Host::Node(n) => n < w.nodes.len(),
        Host::Link(jump) => jump.id < w.links.len() && jump.start_at <= jump.arrive_at,
    } by {
        let f = w.flids[i];
        assert(after.flids[i] == arrived(f, w.links, now));
        match f.host {
            Host::Link(jump) => {
                assert(position(link_ids(w.links), jump.id) == Some(jump.id as int));
                let link = w.links[jump.id as int];
                assert(link.n1 < w.nodes.len() && link.n2 < w.nodes.len());
            },
            Host::Node(_) => {},
        }
    }
    assert forall|i: int, j: int| 0 <= i < j < after.flids.len() implies (
    #[trigger] after.flids[i]).id != (#[trigger] after.flids[j]).id by {
        assert(after.flids[i].id == w.flids[i].id);
        assert(after.flids[j].id == w.flids[j].id);
    }
    if w.can_advance(now) {
        assert forall|i: int| 0 <= i < w.links.len() implies match (
        #[trigger] after.flows[i]).host {
            FlowHostView::Link { id, heading, blobs } => {
                &&& id == w.links[i].id
                &&& after.flows[i].amount == blob_sum(blobs)
                &&& heading is None ==> blobs.len() == 0
            },
            FlowHostView::Node(_) => false,
        } by {
            assert(after.flows[i] == w.tick_flow(now, i));
            assert(w.peak(now, i) <= u64::MAX);
            crate::flow::lemma_blob_sum_nonnegative(w.flows[i].blobs());
            crate::flow::lemma_blob_sum_nonnegative(under_way_of(w, now, i));
            match w.route(i) {
                Some(r) => {
                    crate::tick::lemma_draw_bounds(w, now, i);
                    crate::flow::lemma_blob_sum_push(
                        under_way_of(w, now, i),
                        Blob {
                            amount: w.draw(now, i) as u64,
                            arrive_at: (now + r.travel) as Time,
                        },
                    );
                },
                None => {},
            }
        }
        assert forall|i: int| 0 <= i < after.flows.len() implies (#[trigger] after.flows[i]).id
            == i by {
            assert(after.flows[i] == w.tick_flow(now, i));
        }
        assert forall|i: int| w.links.len() <= i < after.flows.len() implies (
        #[trigger] after.flows[i]).host == FlowHostView::Node(w.nodes[i - w.links.len()].id) by {
            assert(after.flows[i] == w.tick_flow(now, i));
        }
    }
}

/// The blobs of the flow at `i` that are still under way at `now`.
pub open spec fn under_way_of(w: World, now: Time, i: int) -> Seq<Blob> {
    crate::flow::under_way(w.flows[i].blobs(), now)
}

/// A consistent world is consistent after an avatar has set off.
pub proof fn lemma_jump_keeps_wf(w: World, id: PlayerId, link_id: usize, now: Time)
    requires
        w.wf(),
    ensures
        w.start_jump(id, link_id, now).world.wf(),
{
    lemma_found_by_id(w);
    lemma_position(flid_ids(w.flids), id);
    match (position(flid_ids(w.flids), id), position(link_ids(w.links), link_id)) {
        (Some(p), Some(l)) => {
            let link = w.links[l];
            match w.jump_spec(w.flids[p].host, link, now) {
                Some(jump) => {
                    let after = w.start_jump(id, link_id, now).world;
                    lemma_travel_time_bound(w.nodes[link.n1 as int].pos, w.nodes[link.n2 as int].pos);
                    assert(jump.id == link.id);
                    assert(jump.start_at <= jump.arrive_at);
                    assert forall|i: int, j: int| 0 <= i < j < after.flids.len() implies (
                    #[trigger] after.flids[i]).id != (#[trigger] after.flids[j]).id by {
                        assert(after.flids[i].id == w.flids[i].id);
                        assert(after.flids[j].id == w.flids[j].id);
                    }
                },
                None => {},
            }
        },
        _ => {},
    }
}

/// A consistent world is consistent after a flow has been turned.
pub proof fn lemma_change_flow_keeps_wf(w: World, id: PlayerId, flow_id: usize, dir: ReqDir)
    requires
        w.wf(),
    ensures
        w.change_flow(id, flow_id, dir).world.wf(),
{
    lemma_position(flow_ids(w.flows), flow_id);
    match position(flow_ids(w.flows), flow_id) {
        Some(p) => {
            let after = w.change_flow(id, flow_id, dir).world;
            assert(blob_sum(Seq::<Blob>::empty()) == 0);
            match w.flows[p].host {
                FlowHostView::Link { id: link, .. } => {
                    assert forall|i: int| 0 <= i < w.links.len() implies match (
                    #[trigger] after.flows[i]).host {
                        FlowHostView::Link { id, heading, blobs } => {
                            &&& id == w.links[i].id
                            &&& after.flows[i].amount == blob_sum(blobs)
                            &&& heading is None ==> blobs.len() == 0
                        },
                        FlowHostView::Node(_) => false,
                    } by {
                        if i != p {
                            assert(after.flows[i] == w.flows[i]);
                        }
                    }
                    assert forall|i: int| w.links.len() <= i < after.flows.len() implies (
                    #[trigger] after.flows[i]).host == FlowHostView::Node(
                        w.nodes[i - w.links.len()].id,
                    ) by {
                        if i != p {
                            assert(after.flows[i] == w.flows[i]);
                        } else {
                            assert(w.flows[i].host is Node);
                        }
                    }
                },
                FlowHostView::Node(_) => {},
            }
        },
        None => {},
    }
}

/// Whatever request the engine handles, a consistent world is consistent
/// afterwards.
pub proof fn lemma_step_keeps_wf(
    w: World,
    req: PersonalRequest,
    now: Time,
    pick: int,
    fresh: World,
)
    requires
        w.wf(),
        req.request is Restart ==> fresh.generated(),
    ensures
        w.step(req, now, pick, fresh).world.wf(),
{
    match req.request {
        Request::NewPlayer => lemma_join_keeps_wf(w, req.player, pick),
        Request::PlayerExit => lemma_leave_keeps_wf(w, req.player),
        Request::GetState => lemma_advance_keeps_wf(w, now),
        Request::Restart => lemma_generated_is_wf(fresh),
        Request::Calc => lemma_advance_keeps_wf(w, now),
        Request::Jump { link_id } => lemma_jump_keeps_wf(w, req.player, link_id, now),
        Request::ChangeFlow { flow_id, dir } => lemma_change_flow_keeps_wf(
            w,
            req.player,
            flow_id,
            dir,
        ),
    }
}

/// Nodes and links never change but on a restart, and neither does the
/// rate.
pub proof fn lemma_graph_is_fixed(
    w: World,
    req: PersonalRequest,
    now: Time,
    pick: int,
    fresh: World,
)
    requires
        !(req.request is Restart),
    ensures
        w.step(req, now, pick, fresh).world.nodes == w.nodes,
        w.step(req, now, pick, fresh).world.links == w.links,
        w.step(req, now, pick, fresh).world.rate == w.rate,
{
}

} // verus!
