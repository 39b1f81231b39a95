//! The world: nodes, links, avatars and flows, with the time of the last
//! tick.  `World` is its mathematical value; every contract of the engine is
//! stated over it.

use vstd::prelude::*;
use crate::avatar::{Flid, Host, Jump, flids_valid, players_distinct};
use crate::flow::{Flow, FlowHost, FlowHostView, FlowView, blob_sum, copy_flows, copy_vec,
    flow_views};
use crate::generate::{gen_links, gen_nodes, linked_to_nearest, links_generated,
    links_in_order, nodes_generated};
use crate::geometry::{MAX_TRAVEL_TIME, Time};
use crate::graph::{Link, Node, NodeId, links_distinct, links_within, nodes_indexed};
use crate::lookup::{is_first, lemma_position_found, lemma_position_missing, position};
use crate::outside::precise_time_ns;

verus! {

/// How many nodes a generated world is meant to have.
pub const NODE_COUNT: usize = 100;

/// What a link draws from its origin per millisecond in a world that is
/// not told otherwise.
pub const DEFAULT_RATE: u64 = 500;

/// The last moment at which anything can start to travel: from here every
/// arrival time still fits the clock.
pub const END_OF_TIME: Time = 18_446_744_012_709_551_615;

/// A world as the engine holds it.
#[derive(Clone, Debug)]
pub struct Game {
    pub nodes: Vec<Node>,
    pub links: Vec<Link>,
    pub flids: Vec<Flid>,
    pub flows: Vec<Flow>,
    /// The time of the last tick.
    pub last_tick: Time,
    /// What a link with a direction draws from its origin per millisecond.
    pub rate: u64,
}

/// The mathematical value of a `Game`.
pub struct World {
    pub nodes: Seq<Node>,
    pub links: Seq<Link>,
    pub flids: Seq<Flid>,
    pub flows: Seq<FlowView>,
    pub last_tick: Time,
    pub rate: u64,
}

impl View for Game {
    type V = World;

    open spec fn view(&self) -> World {
        World {
            nodes: self.nodes@,
            links: self.links@,
            flids: self.flids@,
            flows: flow_views(self.flows@),
            last_tick: self.last_tick,
            rate: self.rate,
        }
    }
}

/// The ids of `nodes`, in order.
pub open spec fn node_ids(nodes: Seq<Node>) -> Seq<usize> {
    Seq::new(nodes.len(), |i: int| nodes[i].id)
}

/// The flows a new world starts with: an empty one for every link, in the
/// links' order and without a direction, followed by an empty reservoir for
/// every node, in the nodes' order.
pub open spec fn initial_flows(links: Seq<Link>, nodes: Seq<Node>) -> Seq<FlowView> {
    Seq::new(
        links.len() + nodes.len(),
        |i: int|
            if i < links.len() {
                FlowView {
                    id: i as usize,
                    amount: 0,
                    host: FlowHostView::Link {
                        id: links[i].id,
                        heading: None,
                        blobs: Seq::empty(),
                    },
                }
            } else {
                FlowView {
                    id: i as usize,
                    amount: 0,
                    host: FlowHostView::Node(nodes[i - links.len()].id),
                }
            },
    )
}

/// The flows are laid out as in a new world: one per link, in the links'
/// order, then one reservoir per node, in the nodes' order; every id is the
/// flow's position; a link's amount is the sum of its blobs, and a link
/// without a direction carries none.
pub open spec fn flows_laid_out(flows: Seq<FlowView>, links: Seq<Link>, nodes: Seq<Node>) -> bool {
    &&& flows.len() == links.len() + nodes.len()
    &&& forall|i: int| 0 <= i < flows.len() ==> (#[trigger] flows[i]).id == i
    &&& forall|i: int|
        0 <= i < links.len() ==> match (#[trigger] flows[i]).host {
            FlowHostView::Link { id, heading, blobs } => {
                &&& id == links[i].id
                &&& flows[i].amount == blob_sum(blobs)
                &&& heading is None ==> blobs.len() == 0
            },
            FlowHostView::Node(_) => false,
        }
    &&& forall|i: int|
        links.len() <= i < flows.len() ==> (#[trigger] flows[i]).host == FlowHostView::Node(
            nodes[i - links.len()].id,
        )
}

impl World {
    /// The world is consistent: ids are positions, links join two different
    /// existing nodes and no pair twice, every avatar stands or travels
    /// where something exists, no player has two avatars, and the flows are
    /// laid out link by link and node by node.
    pub open spec fn wf(self) -> bool {
        &&& nodes_indexed(self.nodes)
        &&& links_distinct(self.links)
        &&& links_within(self.links, self.nodes.len() as int)
        &&& flids_valid(self.flids, self.nodes.len() as int, self.links.len() as int)
        &&& players_distinct(self.flids)
        &&& flows_laid_out(self.flows, self.links, self.nodes)
    }

    /// The world is as generation leaves it: `NODE_COUNT` nodes, placed and
    /// linked as generation does, every node linked to its two nearest, no
    /// avatars, empty flows, the default rate.
    pub open spec fn generated(self) -> bool {
        &&& nodes_generated(self.nodes)
        &&& self.nodes.len() == NODE_COUNT
        &&& links_distinct(self.links)
        &&& links_within(self.links, self.nodes.len() as int)
        &&& self.flids.len() == 0
        &&& self.links.len() <= 4 * self.nodes.len()
        &&& links_generated(self.nodes, self.links)
        &&& links_in_order(self.nodes, self.links)
        &&& forall|i: int|
            0 <= i < self.nodes.len() ==> #[trigger] linked_to_nearest(self.nodes, self.links, i)
        &&& self.flows == initial_flows(self.links, self.nodes)
        &&& self.rate == DEFAULT_RATE
    }

    /// The time it takes to travel along `link`, if both of its endpoints
    /// exist.
    pub open spec fn link_time(self, link: Link) -> Option<Time> {
        match (
            position(node_ids(self.nodes), link.n1),
            position(node_ids(self.nodes), link.n2),
        ) {
            (Some(a), Some(b)) => Some(
                self.nodes[a].pos.time_to_spec(self.nodes[b].pos) as Time,
            ),
            _ => None,
        }
    }

    /// The jump that an avatar hosted by `host` makes along `link` when it
    /// sets off at `time`: none if the avatar is in transit already, if the
    /// link does not touch its node, if an endpoint of the link is missing,
    /// or if `time` is past `END_OF_TIME`.
    pub open spec fn jump_spec(self, host: Host, link: Link, time: Time) -> Option<Jump> {
        match host {
            Host::Link(_) => None,
            Host::Node(n) => match (link.away_from(n), self.link_time(link)) {
                (Some(dir), Some(t)) => if time <= END_OF_TIME {
                    Some(
                        Jump { id: link.id, dir, start_at: time, arrive_at: (time + t) as Time },
                    )
                } else {
                    None
                },
                _ => None,
            },
        }
    }
}

/// A generated world is consistent.
pub proof fn lemma_generated_is_wf(w: World)
    requires
        w.generated(),
    ensures
        w.wf(),
{
    assert forall|i: int| 0 <= i < w.links.len() implies match (#[trigger] w.flows[i]).host {
        FlowHostView::Link { id, heading, blobs } => {
            &&& id == w.links[i].id
            &&& w.flows[i].amount == blob_sum(blobs)
            &&& heading is None ==> blobs.len() == 0
        },
        FlowHostView::Node(_) => false,
    } by {
        assert(blob_sum(Seq::<crate::flow::Blob>::empty()) == 0);
    }
}

/// Reads the clock and gives the reading in whole milliseconds.
pub fn now() -> (t: Time)
    ensures
        exists|ns: u64| t == #[trigger] millis(ns),
        t <= LAST_READING,
{
    to_millis(precise_time_ns())
}

/// The nanoseconds in a millisecond.
pub const NANOS_PER_MILLI: u64 = 1_000_000;

/// The latest time that the clock, which counts nanoseconds in 64 bits, can
/// show.  It lies long before `END_OF_TIME`.
pub const LAST_READING: Time = 18_446_744_073_709;

/// The whole milliseconds in `ns` nanoseconds.
pub open spec fn millis(ns: u64) -> Time {
    ns / NANOS_PER_MILLI
}

/// Turns a clock reading in nanoseconds into whole milliseconds.
pub fn to_millis(ns: u64) -> (t: Time)
    ensures
        t == millis(ns),
        t <= LAST_READING,
{
    ns / NANOS_PER_MILLI
}

/// Finds the first node with the id `id`.
pub fn find_node(nodes: &Vec<Node>, id: NodeId) -> (found: Option<usize>)
    ensures
        match found {
            Some(i) => position(node_ids(nodes@), id) == Some(i as int),
            None => position(node_ids(nodes@), id) is None,
        },
{
    let mut i: usize = 0;
    while i < nodes.len()
        invariant
            i <= nodes.len(),
            forall|j: int| 0 <= j < i ==> node_ids(nodes@)[j] != id,
        decreases nodes.len() - i,
    {
        if nodes[i].id == id {
            proof {
                assert(is_first(node_ids(nodes@), id, i as int));
                lemma_position_found(node_ids(nodes@), id, i as int);
            }
            return Some(i);
        }
        i = i + 1;
    }
    proof {
        lemma_position_missing(node_ids(nodes@), id);
    }
    None
}

/// Builds the flows a new world starts with.
pub fn make_flows(links: &Vec<Link>, nodes: &Vec<Node>) -> (flows: Vec<Flow>)
    requires
        links@.len() + nodes@.len() <= usize::MAX,
    ensures
        flow_views(flows@) == initial_flows(links@, nodes@),
{
    let mut flows: Vec<Flow> = Vec::new();
    let mut i: usize = 0;
    while i < links.len()
        invariant
            i <= links.len(),
            flows@.len() == i,
            forall|j: int| 0 <= j < i ==> (#[trigger] flows@[j])@ == initial_flows(links@, nodes@)[j],
            links@.len() + nodes@.len() <= usize::MAX,
        decreases links.len() - i,
    {
        flows.push(
            Flow {
                id: i,
                amount: 0,
                host: FlowHost::Link { id: links[i].id, heading: None, blobs: Vec::new() },
            },
        );
        i = i + 1;
    }
    let mut k: usize = 0;
    while k < nodes.len()
        invariant
            k <= nodes.len(),
            flows@.len() == links@.len() + k,
            forall|j: int|
                0 <= j < flows@.len() ==> (#[trigger] flows@[j])@ == initial_flows(
                    links@,
                    nodes@,
                )[j],
            links@.len() + nodes@.len() <= usize::MAX,
        decreases nodes.len() - k,
    {
        flows.push(Flow { id: links.len() + k, amount: 0, host: FlowHost::Node(nodes[k].id) });
        k = k + 1;
    }
    assert(flow_views(flows@) =~= initial_flows(links@, nodes@));
    flows
}

impl Game {
    /// Generates a world of `NODE_COUNT` nodes, stamped with the current
    /// time.
    pub fn new() -> (g: Game)
        ensures
            g@.generated(),
            g@.wf(),
            g@.last_tick <= LAST_READING,
    {
        Game::generate(now())
    }

    /// Generates a world of `NODE_COUNT` nodes whose last tick was at
    /// `time`.
    pub fn generate(time: Time) -> (g: Game)
        ensures
            g@.generated(),
            g@.wf(),
            g@.last_tick == time,
    {
        let nodes = gen_nodes(NODE_COUNT);
        let links = gen_links(nodes.as_slice());
        let g = Game::assemble(nodes, links, time);
        proof {
            lemma_generated_is_wf(g@);
        }
        g
    }

    /// Puts a world together from its nodes and links: no avatars, empty
    /// flows, the default rate.  Without links and flows if there are more
    /// of them than can be counted.
    pub fn assemble(nodes: Vec<Node>, links: Vec<Link>, time: Time) -> (g: Game)
        ensures
            g@.nodes == nodes@,
            g@.flids.len() == 0,
            g@.last_tick == time,
            g@.rate == DEFAULT_RATE,
            links@.len() + nodes@.len() <= usize::MAX ==> g@.links == links@ && g@.flows
                == initial_flows(links@, nodes@),
            links@.len() + nodes@.len() > usize::MAX ==> g@.links.len() == 0 && g@.flows
                == initial_flows(Seq::empty(), nodes@),
    {
        let links = if links.len() <= usize::MAX - nodes.len() {
            links
        } else {
            Vec::new()
        };
        let flows = make_flows(&links, &nodes);
        Game { nodes, links, flids: Vec::new(), flows, last_tick: time, rate: DEFAULT_RATE }
    }

    /// Replaces the world by a newly generated one, stamped with the
    /// current time.
    pub fn renew(&mut self)
        ensures
            final(self)@.generated(),
            final(self)@.wf(),
            final(self)@.last_tick <= LAST_READING,
    {
        let fresh = Game::new();
        *self = fresh;
    }

    /// A copy of the whole world.
    pub fn snapshot(&self) -> (g: Game)
        ensures
            g@ == self@,
    {
        Game {
            nodes: copy_vec(&self.nodes),
            links: copy_vec(&self.links),
            flids: copy_vec(&self.flids),
            flows: copy_flows(&self.flows),
            last_tick: self.last_tick,
            rate: self.rate,
        }
    }

    /// Computes the time it takes to travel along `link`.
    pub fn time(&self, link: &Link) -> (t: Option<Time>)
        ensures
            t == self@.link_time(*link),
            t matches Some(d) ==> d <= MAX_TRAVEL_TIME,
    {
        match (find_node(&self.nodes, link.n1), find_node(&self.nodes, link.n2)) {
            (Some(a), Some(b)) => Some(self.nodes[a].time_to(&self.nodes[b])),
            _ => None,
        }
    }

    /// Computes the jump that an avatar hosted by `host` makes along `link`
    /// when it sets off at `time`.
    pub fn jump(&self, host: &Host, link: &Link, time: Time) -> (j: Option<Jump>)
        ensures
            j == self@.jump_spec(*host, *link, time),
            position(node_ids(self@.nodes), link.n1) is Some && position(
                node_ids(self@.nodes),
                link.n2,
            ) is Some && time <= END_OF_TIME ==> (j is Some <==> (*host matches Host::Node(n)
                && link.touches(n))),
    {
        match host {
            Host::Link(_) => None,
            Host::Node(node_id) => {
                match (link.dir_from(node_id), self.time(link)) {
                    (Some(dir), Some(t)) => {
                        if time <= END_OF_TIME {
                            Some(Jump { id: link.id, dir, start_at: time, arrive_at: time + t })
                        } else {
                            None
                        }
                    },
                    _ => None,
                }
            },
        }
    }
}

} // verus!
