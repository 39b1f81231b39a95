//! Flows: the conserved quantity, held in a node's reservoir or travelling
//! along a link as a queue of blobs.

use vstd::prelude::*;
use crate::geometry::Time;
use crate::graph::{Dir, LinkId, NodeId, PlayerId};

verus! {

pub type FlowId = usize;

/// A chunk of flow in transit, credited to the destination once the clock
/// has reached `arrive_at`.
#[derive(Clone, Copy, Debug, PartialEq, Eq, Structural)]
pub struct Blob {
    pub amount: u64,
    pub arrive_at: Time,
}

/// The direction in which a link carries flow, and the player who set it.
#[derive(Clone, Copy, Debug)]
pub struct Heading {
    pub dir: Dir,
    pub by: Option<PlayerId>,
}

/// Where a flow is held.
#[derive(Clone, Debug)]
pub enum FlowHost {
    Node(NodeId),
    Link { id: LinkId, heading: Option<Heading>, blobs: Vec<Blob> },
}

/// A quantity of flow.  For a reservoir `amount` is what the node holds; for
/// a link it is the displayed sum of the blobs in transit.
#[derive(Clone, Debug)]
pub struct Flow {
    pub id: FlowId,
    pub amount: u64,
    pub host: FlowHost,
}

/// The mathematical value of a `FlowHost`.
pub enum FlowHostView {
    Node(NodeId),
    Link { id: LinkId, heading: Option<Heading>, blobs: Seq<Blob> },
}

/// The mathematical value of a `Flow`.
pub struct FlowView {
    pub id: FlowId,
    pub amount: u64,
    pub host: FlowHostView,
}

impl View for FlowHost {
    type V = FlowHostView;

    open spec fn view(&self) -> FlowHostView {
        match *self {
            FlowHost::Node(n) => FlowHostView::Node(n),
            FlowHost::Link { id, heading, blobs } => FlowHostView::Link {
                id,
                heading,
                blobs: blobs@,
            },
        }
    }
}

impl View for Flow {
    type V = FlowView;

    open spec fn view(&self) -> FlowView {
        FlowView { id: self.id, amount: self.amount, host: self.host@ }
    }
}

/// The values of `flows`, in order.
pub open spec fn flow_views(flows: Seq<Flow>) -> Seq<FlowView> {
    Seq::new(flows.len(), |i: int| flows[i]@)
}

/// The sum of the amounts of `blobs`.
pub open spec fn blob_sum(blobs: Seq<Blob>) -> int
    decreases blobs.len(),
{
    if blobs.len() == 0 {
        0
    } else {
        blob_sum(blobs.drop_last()) + blobs.last().amount
    }
}

/// The blobs of `blobs` that are still under way at the time `now`.
pub open spec fn under_way(blobs: Seq<Blob>, now: Time) -> Seq<Blob> {
    blobs.filter(|b: Blob| b.arrive_at > now)
}

/// The blobs of `blobs` that have arrived by the time `now`.
pub open spec fn landed(blobs: Seq<Blob>, now: Time) -> Seq<Blob> {
    blobs.filter(|b: Blob| b.arrive_at <= now)
}

impl FlowView {
    /// The flow sits in a node's reservoir.
    pub open spec fn at_node(self) -> bool {
        self.host is Node
    }

    /// The blobs in transit; none for a reservoir.
    pub open spec fn blobs(self) -> Seq<Blob> {
        match self.host {
            FlowHostView::Node(_) => Seq::empty(),
            FlowHostView::Link { blobs, .. } => blobs,
        }
    }

    /// What the flow holds: a reservoir its amount, a link the sum of its
    /// blobs.
    pub open spec fn worth(self) -> int {
        match self.host {
            FlowHostView::Node(_) => self.amount as int,
            FlowHostView::Link { blobs, .. } => blob_sum(blobs),
        }
    }

    /// The node whose reservoir this is, if it is one.
    pub open spec fn reservoir_of(self) -> Option<NodeId> {
        match self.host {
            FlowHostView::Node(n) => Some(n),
            FlowHostView::Link { .. } => None,
        }
    }
}

/// The flow `f` once the player `id` has let go of it: a direction set in
/// the player's name stays, in nobody's name.
pub open spec fn disowned(f: FlowView, id: PlayerId) -> FlowView {
    match f.host {
        FlowHostView::Link { id: link, heading: Some(h), blobs } => if h.by == Some(id) {
            FlowView {
                id: f.id,
                amount: f.amount,
                host: FlowHostView::Link {
                    id: link,
                    heading: Some(Heading { dir: h.dir, by: None }),
                    blobs,
                },
            }
        } else {
            f
        },
        _ => f,
    }
}

/// All of `flows` once the player `id` has let go of them.
pub open spec fn all_disowned(flows: Seq<FlowView>, id: PlayerId) -> Seq<FlowView> {
    Seq::new(flows.len(), |i: int| disowned(flows[i], id))
}

/// Adding a blob adds its amount to the sum.
pub proof fn lemma_blob_sum_push(blobs: Seq<Blob>, b: Blob)
    ensures
        blob_sum(blobs.push(b)) == blob_sum(blobs) + b.amount,
{
    assert(blobs.push(b).drop_last() == blobs);
}

/// The sum of no blobs is zero, and no sum is negative.
pub proof fn lemma_blob_sum_nonnegative(blobs: Seq<Blob>)
    ensures
        blob_sum(blobs) >= 0,
    decreases blobs.len(),
{
    if blobs.len() > 0 {
        lemma_blob_sum_nonnegative(blobs.drop_last());
    }
}

/// Every blob has either arrived or is still under way: the two parts hold
/// together what the whole queue holds.
pub proof fn lemma_blob_sum_split(blobs: Seq<Blob>, now: Time)
    ensures
        blob_sum(blobs) == blob_sum(under_way(blobs, now)) + blob_sum(landed(blobs, now)),
    decreases blobs.len(),
{
    reveal(Seq::filter);
    if blobs.len() > 0 {
        let rest = blobs.drop_last();
        let b = blobs.last();
        lemma_blob_sum_split(rest, now);
        if b.arrive_at > now {
            assert(under_way(blobs, now) == under_way(rest, now).push(b));
            assert(landed(blobs, now) == landed(rest, now));
            lemma_blob_sum_push(under_way(rest, now), b);
        } else {
            assert(landed(blobs, now) == landed(rest, now).push(b));
            assert(under_way(blobs, now) == under_way(rest, now));
            lemma_blob_sum_push(landed(rest, now), b);
        }
    }
}

/// Copies a vector of plain values.
pub fn copy_vec<T: Copy>(v: &Vec<T>) -> (r: Vec<T>)
    ensures
        r@ == v@,
{
    let mut r: Vec<T> = Vec::new();
    let mut i: usize = 0;
    while i < v.len()
        invariant
            i <= v.len(),
            r@ == v@.take(i as int),
        decreases v.len() - i,
    {
        r.push(v[i]);
        assert(v@.take(i + 1) == v@.take(i as int).push(v@[i as int]));
        i = i + 1;
    }
    assert(v@.take(i as int) == v@);
    r
}

impl Flow {
    /// A copy of this flow.
    pub fn duplicate(&self) -> (r: Flow)
        ensures
            r@ == self@,
    {
        let host = match &self.host {
            FlowHost::Node(n) => FlowHost::Node(*n),
            FlowHost::Link { id, heading, blobs } => FlowHost::Link {
                id: *id,
                heading: *heading,
                blobs: copy_vec(blobs),
            },
        };
        Flow { id: self.id, amount: self.amount, host }
    }
}

/// Copies a vector of flows.
pub fn copy_flows(flows: &Vec<Flow>) -> (r: Vec<Flow>)
    ensures
        flow_views(r@) == flow_views(flows@),
{
    let mut r: Vec<Flow> = Vec::new();
    let mut i: usize = 0;
    while i < flows.len()
        invariant
            i <= flows.len(),
            r@.len() == i,
            forall|j: int| 0 <= j < i ==> r@[j]@ == flows@[j]@,
        decreases flows.len() - i,
    {
        r.push(flows[i].duplicate());
        i = i + 1;
    }
    assert(flow_views(r@) =~= flow_views(flows@));
    r
}

/// Takes the name of the player `id` off every direction set in it.
pub fn disown(flows: &mut Vec<Flow>, id: PlayerId)
    ensures
        flow_views(final(flows)@) == all_disowned(flow_views(old(flows)@), id),
{
    let mut i: usize = 0;
    while i < flows.len()
        invariant
            i <= flows.len(),
            flows@.len() == old(flows)@.len(),
            forall|j: int| 0 <= j < i ==> (#[trigger] flows@[j])@ == disowned(old(flows)@[j]@, id),
            forall|j: int| i <= j < flows@.len() ==> (#[trigger] flows@[j])@ == old(flows)@[j]@,
        decreases flows.len() - i,
    {
        let freed: Option<Flow> = match &flows[i].host {
            FlowHost::Link { id: link, heading: Some(h), blobs } => match h.by {
                Some(owner) => if owner == id {
                    Some(
                        Flow {
                            id: flows[i].id,
                            amount: flows[i].amount,
                            host: FlowHost::Link {
                                id: *link,
                                heading: Some(Heading { dir: h.dir, by: None }),
                                blobs: copy_vec(blobs),
                            },
                        },
                    )
                } else {
                    None
                },
                None => None,
            },
            _ => None,
        };
        match freed {
            Some(flow) => {
                flows.set(i, flow);
            },
            None => {},
        }
        i = i + 1;
    }
    assert(flow_views(flows@) =~= all_disowned(flow_views(old(flows)@), id));
}

} // verus!
