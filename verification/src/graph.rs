//! Nodes and links: the fixed part of a world.

use vstd::prelude::*;
use crate::geometry::{Point, Time};

verus! {

pub type PlayerId = usize;

pub type NodeId = usize;

pub type LinkId = usize;

/// A fixed vertex of the world.  `size` is its throughput in thousandths of
/// a unit of flow per second.  Amounts of flow are counted in millionths of
/// a unit, so `size` is what the node's reservoir gains per millisecond.
#[derive(Clone, Copy, Debug, PartialEq, Eq, Structural)]
pub struct Node {
    pub id: NodeId,
    pub pos: Point,
    pub size: u32,
}

/// An undirected edge between the nodes `n1` and `n2`.  `quality` is in
/// thousandths.
#[derive(Clone, Copy, Debug, PartialEq, Eq, Structural)]
pub struct Link {
    pub id: LinkId,
    pub quality: u32,
    pub n1: NodeId,
    pub n2: NodeId,
}

/// A direction of travel along a link: towards its first or its second
/// endpoint.
#[derive(Clone, Copy, Debug, PartialEq, Eq, Structural)]
pub enum Dir {
    To1,
    To2,
}

impl Node {
    /// Computes the distance between two nodes, rounded down.
    pub fn dist_to(&self, other: &Node) -> (d: u64)
        ensures
            d as int == self.pos.dist_spec(other.pos),
    {
        self.pos.dist(other.pos)
    }

    /// Computes the travel time between two nodes, in milliseconds.
    pub fn time_to(&self, other: &Node) -> (t: Time)
        ensures
            t as int == self.pos.time_to_spec(other.pos),
            t <= crate::geometry::MAX_TRAVEL_TIME,
    {
        self.pos.time_to(other.pos)
    }
}

impl Link {
    /// `id` is one of the link's endpoints.
    pub open spec fn touches(&self, id: NodeId) -> bool {
        self.n1 == id || self.n2 == id
    }

    /// The link runs between the nodes `a` and `b`.
    pub open spec fn joins(&self, a: NodeId, b: NodeId) -> bool {
        self.touches(a) && self.touches(b)
    }

    /// The direction that leads away from the endpoint `id`, if `id` is an
    /// endpoint at all.
    pub open spec fn away_from(&self, id: NodeId) -> Option<Dir> {
        if self.n1 == id {
            Some(Dir::To2)
        } else if self.n2 == id {
            Some(Dir::To1)
        } else {
            None
        }
    }

    /// The endpoint that a traveller in direction `dir` arrives at.
    pub open spec fn target(&self, dir: Dir) -> NodeId {
        match dir {
            Dir::To1 => self.n1,
            Dir::To2 => self.n2,
        }
    }

    /// The endpoint that a traveller in direction `dir` starts from.
    pub open spec fn origin(&self, dir: Dir) -> NodeId {
        match dir {
            Dir::To1 => self.n2,
            Dir::To2 => self.n1,
        }
    }

    pub fn has_id(&self, id: &NodeId) -> (b: bool)
        ensures
            b == self.touches(*id),
    {
        self.n1 == *id || self.n2 == *id
    }

    pub fn between_ids(&self, n1: &NodeId, n2: &NodeId) -> (b: bool)
        ensures
            b == self.joins(*n1, *n2),
    {
        self.has_id(n1) && self.has_id(n2)
    }

    pub fn dir_from(&self, id: &NodeId) -> (d: Option<Dir>)
        ensures
            d == self.away_from(*id),
    {
        if self.n1 == *id {
            Some(Dir::To2)
        } else if self.n2 == *id {
            Some(Dir::To1)
        } else {
            None
        }
    }

    /// The endpoint reached by travelling in direction `dir`.
    pub fn end(&self, dir: Dir) -> (n: NodeId)
        ensures
            n == self.target(dir),
    {
        match dir {
            Dir::To1 => self.n1,
            Dir::To2 => self.n2,
        }
    }

    /// The endpoint left behind by travelling in direction `dir`.
    pub fn start(&self, dir: Dir) -> (n: NodeId)
        ensures
            n == self.origin(dir),
    {
        match dir {
            Dir::To1 => self.n2,
            Dir::To2 => self.n1,
        }
    }
}

/// Every node's id is its position in the sequence.
pub open spec fn nodes_indexed(nodes: Seq<Node>) -> bool {
    forall|i: int| 0 <= i < nodes.len() ==> (#[trigger] nodes[i]).id == i
}

/// Any two different nodes lie at least `sep` apart (`sep2` is the square
/// of that distance).
pub open spec fn nodes_separated(nodes: Seq<Node>, sep2: int) -> bool {
    forall|i: int, j: int|
        0 <= i < j < nodes.len() ==> (#[trigger] nodes[i]).pos.dist2_spec(
            (#[trigger] nodes[j]).pos,
        ) >= sep2
}

/// Every link's id is its position in the sequence, its two endpoints
/// differ, and no two links join the same pair of nodes.
pub open spec fn links_distinct(links: Seq<Link>) -> bool {
    &&& forall|i: int|
        0 <= i < links.len() ==> (#[trigger] links[i]).id == i && links[i].n1 != links[i].n2
    &&& forall|i: int, j: int|
        0 <= i < j < links.len() ==> !(#[trigger] links[i]).joins(
            (#[trigger] links[j]).n1,
            links[j].n2,
        )
}

/// Both endpoints of every link are ids below `n`.
pub open spec fn links_within(links: Seq<Link>, n: int) -> bool {
    forall|i: int| 0 <= i < links.len() ==> (#[trigger] links[i]).n1 < n && links[i].n2 < n
}

/// Some link among `links` joins the nodes `a` and `b`.
pub open spec fn linked(links: Seq<Link>, a: NodeId, b: NodeId) -> bool {
    exists|i: int| 0 <= i < links.len() && (#[trigger] links[i]).joins(a, b)
}

} // verus!
