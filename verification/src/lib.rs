//! The simulation core of a small multiplayer world: a graph of nodes and
//! links, avatars that jump along links, and a conserved flow that circulates
//! between node reservoirs.  Every state transition is a function with a
//! contract over a mathematical model of the world.

pub mod geometry;
pub mod graph;
pub mod nearest;
mod outside;
pub mod generate;
pub mod lattice;
pub mod lookup;
pub mod sums;
pub mod avatar;
pub mod flow;
pub mod world;
pub mod tick;
pub mod protocol;
pub mod engine;
pub mod consistency;
pub mod conservation;
pub mod laws;

pub use crate::avatar::{Flid, Host, Jump};
pub use crate::flow::{Blob, Flow, FlowHost, FlowId, Heading};
pub use crate::geometry::{Point, Time};
pub use crate::graph::{Dir, Link, LinkId, Node, NodeId, PlayerId};
pub use crate::protocol::{personal, Address, AddressResponse, PersonalRequest, ReqDir, Request,
    Response};
pub use crate::world::Game;
