//! Avatars: a player's presence in the world, parked at a node or in
//! transit along a link.

use vstd::prelude::*;
use crate::geometry::Time;
use crate::graph::{Dir, Link, LinkId, NodeId, PlayerId};
use crate::lookup::{is_first, lemma_position_found, lemma_position_missing, position};

verus! {

/// A passage along the link `id` in direction `dir`.
#[derive(Clone, Copy, Debug, PartialEq, Eq, Structural)]
pub struct Jump {
    pub id: LinkId,
    pub dir: Dir,
    pub start_at: Time,
    pub arrive_at: Time,
}

/// Where an avatar is: in transit on a link, or parked at a node.
#[derive(Clone, Copy, Debug, PartialEq, Eq, Structural)]
pub enum Host {
    Link(Jump),
    Node(NodeId),
}

/// The avatar of the player `id`.
#[derive(Clone, Copy, Debug, PartialEq, Eq, Structural)]
pub struct Flid {
    pub id: PlayerId,
    pub host: Host,
}

/// The ids of `links`, in order.
pub open spec fn link_ids(links: Seq<Link>) -> Seq<usize> {
    Seq::new(links.len(), |i: int| links[i].id)
}

/// The player ids of `flids`, in order.
pub open spec fn flid_ids(flids: Seq<Flid>) -> Seq<usize> {
    Seq::new(flids.len(), |i: int| flids[i].id)
}

/// The avatar `f` as it is at the time `now`: one whose jump has ended by
/// then, along a link that exists, is parked at the node the jump led to;
/// any other is unchanged.
pub open spec fn arrived(f: Flid, links: Seq<Link>, now: Time) -> Flid {
    match f.host {
        Host::Link(jump) => match position(link_ids(links), jump.id) {
            Some(l) => if jump.arrive_at <= now {
                Flid { id: f.id, host: Host::Node(links[l].target(jump.dir)) }
            } else {
                f
            },
            None => f,
        },
        Host::Node(_) => f,
    }
}

/// All of `flids` as they are at the time `now`.
pub open spec fn all_arrived(flids: Seq<Flid>, links: Seq<Link>, now: Time) -> Seq<Flid> {
    Seq::new(flids.len(), |i: int| arrived(flids[i], links, now))
}

/// No two avatars belong to the same player.
pub open spec fn players_distinct(flids: Seq<Flid>) -> bool {
    forall|i: int, j: int| 0 <= i < j < flids.len() ==> (#[trigger] flids[i]).id != (
    #[trigger] flids[j]).id
}

/// Every parked avatar stands at a node id below `nodes`, and every avatar in
/// transit travels a link id below `links` and does not arrive before it
/// starts.
pub open spec fn flids_valid(flids: Seq<Flid>, nodes: int, links: int) -> bool {
    forall|i: int|
        0 <= i < flids.len() ==> match (#[trigger] flids[i]).host {
            Host::Node(n) => n < nodes,
            Host::Link(jump) => jump.id < links && jump.start_at <= jump.arrive_at,
        }
}

/// Finds the first link with the id `id`.
pub fn find_link(links: &Vec<Link>, id: LinkId) -> (found: Option<usize>)
    ensures
        match found {
            Some(i) => position(link_ids(links@), id) == Some(i as int),
            None => position(link_ids(links@), id) is None,
        },
{
    let mut i: usize = 0;
    while i < links.len()
        invariant
            i <= links.len(),
            forall|j: int| 0 <= j < i ==> link_ids(links@)[j] != id,
        decreases links.len() - i,
    {
        if links[i].id == id {
            proof {
                assert(is_first(link_ids(links@), id, i as int));
                lemma_position_found(link_ids(links@), id, i as int);
            }
            return Some(i);
        }
        i = i + 1;
    }
    proof {
        lemma_position_missing(link_ids(links@), id);
    }
    None
}

/// Finds the first avatar of the player `id`.
pub fn find_flid(flids: &Vec<Flid>, id: PlayerId) -> (found: Option<usize>)
    ensures
        match found {
            Some(i) => position(flid_ids(flids@), id) == Some(i as int),
            None => position(flid_ids(flids@), id) is None,
        },
{
    let mut i: usize = 0;
    while i < flids.len()
        invariant
            i <= flids.len(),
            forall|j: int| 0 <= j < i ==> flid_ids(flids@)[j] != id,
        decreases flids.len() - i,
    {
        if flids[i].id == id {
            proof {
                assert(is_first(flid_ids(flids@), id, i as int));
                lemma_position_found(flid_ids(flids@), id, i as int);
            }
            return Some(i);
        }
        i = i + 1;
    }
    proof {
        lemma_position_missing(flid_ids(flids@), id);
    }
    None
}

/// The avatars of `flids` that do not belong to the player `id`.
pub open spec fn without_player(flids: Seq<Flid>, id: PlayerId) -> Seq<Flid> {
    flids.filter(|f: Flid| f.id != id)
}

/// Removes every avatar of the player `id`.
pub fn remove_player(flids: &mut Vec<Flid>, id: PlayerId)
    ensures
        final(flids)@ == without_player(old(flids)@, id),
{
    let mut kept: Vec<Flid> = Vec::new();
    let mut i: usize = 0;
    while i < flids.len()
        invariant
            i <= flids.len(),
            *flids == *old(flids),
            kept@ == without_player(flids@.take(i as int), id),
        decreases flids.len() - i,
    {
        proof {
            let pred = |f: Flid| f.id != id;
            let next = flids@.take(i + 1);
            assert(next.drop_last() == flids@.take(i as int));
            assert(next.last() == flids@[i as int]);
            reveal(Seq::filter);
            assert(next.filter(pred) == if pred(next.last()) {
                next.drop_last().filter(pred).push(next.last())
            } else {
                next.drop_last().filter(pred)
            });
        }
        if flids[i].id != id {
            kept.push(flids[i]);
        }
        i = i + 1;
    }
    assert(flids@.take(i as int) == flids@);
    *flids = kept;
}

/// Moves every avatar whose jump has ended by `now` to the node it was
/// heading for.
pub fn settle_flids(flids: &mut Vec<Flid>, links: &Vec<Link>, now: Time)
    ensures
        final(flids)@ == all_arrived(old(flids)@, links@, now),
{
    let mut i: usize = 0;
    while i < flids.len()
        invariant
            i <= flids.len(),
            flids@.len() == old(flids)@.len(),
            forall|j: int| 0 <= j < i ==> flids@[j] == arrived(old(flids)@[j], links@, now),
            forall|j: int| i <= j < flids@.len() ==> flids@[j] == old(flids)@[j],
        decreases flids.len() - i,
    {
        let f = flids[i];
        match f.host {
            Host::Link(jump) => {
                if jump.arrive_at <= now {
                    match find_link(links, jump.id) {
                        Some(l) => {
                            let to = links[l].end(jump.dir);
                            flids.set(i, Flid { id: f.id, host: Host::Node(to) });
                        },
                        None => {},
                    }
                }
            },
            Host::Node(_) => {},
        }
        i = i + 1;
    }
    assert(flids@ =~= all_arrived(old(flids)@, links@, now));
}

} // verus!
