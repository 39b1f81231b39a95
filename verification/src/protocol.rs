//! What goes into the engine and what comes out of it: requests from
//! players, and responses addressed to one player, to all of them, or to
//! nobody.

use vstd::prelude::*;
use crate::avatar::Flid;
use crate::flow::{Flow, FlowId, FlowView, flow_views};
use crate::geometry::Time;
use crate::graph::{Dir, LinkId, PlayerId};
use crate::world::{Game, World};

verus! {

/// What the engine tells its clients.
#[derive(Clone, Debug)]
pub enum Response {
    /// The whole world.
    GameState(Game),
    /// All avatars, after a tick.
    FlidState { flids: Vec<Flid> },
    /// One avatar that has changed.
    FlidUpdate { flid: Flid },
    /// The flows that a tick has changed.
    FlowState { flows: Vec<Flow> },
    /// One flow that has changed.
    FlowUpdate { flow: Flow },
    /// The welcome to a new player.
    Hello { id: PlayerId, time: Time },
    /// Nothing happened.
    Nop,
}

/// To whom a response goes.
#[derive(Clone, Copy, Debug, PartialEq, Eq, Structural)]
pub enum Address {
    NoOne,
    Player(PlayerId),
    All,
}

/// A response together with its address.
#[derive(Clone, Debug)]
pub struct AddressResponse {
    pub whom: Address,
    pub response: Response,
}

/// The direction that a player asks a flow to take.
#[derive(Clone, Copy, Debug, PartialEq, Eq, Structural)]
pub enum ReqDir {
    To1,
    To2,
}

/// What a player asks of the engine.
#[derive(Clone, Copy, Debug, PartialEq, Eq, Structural)]
pub enum Request {
    NewPlayer,
    PlayerExit,
    GetState,
    Restart,
    Calc,
    Jump { link_id: LinkId },
    ChangeFlow { flow_id: FlowId, dir: ReqDir },
}

/// A request together with the player who makes it.
#[derive(Clone, Copy, Debug, PartialEq, Eq, Structural)]
pub struct PersonalRequest {
    pub player: PlayerId,
    pub request: Request,
}

/// The mathematical value of a `Response`.
pub enum Event {
    GameState(World),
    FlidState { flids: Seq<Flid> },
    FlidUpdate { flid: Flid },
    FlowState { flows: Seq<FlowView> },
    FlowUpdate { flow: FlowView },
    Hello { id: PlayerId, time: Time },
    Nop,
}

/// The mathematical value of an `AddressResponse`.
pub struct Addressed {
    pub whom: Address,
    pub event: Event,
}

impl View for Response {
    type V = Event;

    open spec fn view(&self) -> Event {
        match *self {
            Response::GameState(g) => Event::GameState(g@),
            Response::FlidState { flids } => Event::FlidState { flids: flids@ },
            Response::FlidUpdate { flid } => Event::FlidUpdate { flid },
            Response::FlowState { flows } => Event::FlowState { flows: flow_views(flows@) },
            Response::FlowUpdate { flow } => Event::FlowUpdate { flow: flow@ },
            Response::Hello { id, time } => Event::Hello { id, time },
            Response::Nop => Event::Nop,
        }
    }
}

impl View for AddressResponse {
    type V = Addressed;

    open spec fn view(&self) -> Addressed {
        Addressed { whom: self.whom, event: self.response@ }
    }
}

/// The values of `out`, in order.
pub open spec fn events(out: Seq<AddressResponse>) -> Seq<Addressed> {
    Seq::new(out.len(), |i: int| out[i]@)
}

/// The event that tells nobody that nothing happened.
pub open spec fn nop() -> Addressed {
    Addressed { whom: Address::NoOne, event: Event::Nop }
}

/// `event` for every player.
pub open spec fn to_all(event: Event) -> Addressed {
    Addressed { whom: Address::All, event }
}

/// `event` for the player `id` alone.
pub open spec fn to_player(id: PlayerId, event: Event) -> Addressed {
    Addressed { whom: Address::Player(id), event }
}

impl Address {
    /// A response with this address is meant for the player `id`.
    pub open spec fn includes(self, id: PlayerId) -> bool {
        match self {
            Address::NoOne => false,
            Address::Player(p) => p == id,
            Address::All => true,
        }
    }

    /// Tells whether a response with this address is meant for the player
    /// `id`.
    pub fn reaches(&self, id: PlayerId) -> (b: bool)
        ensures
            b == self.includes(id),
    {
        match self {
            Address::NoOne => false,
            Address::Player(p) => *p == id,
            Address::All => true,
        }
    }
}

impl ReqDir {
    /// The direction of travel that the request names.
    pub open spec fn dir(self) -> Dir {
        match self {
            ReqDir::To1 => Dir::To1,
            ReqDir::To2 => Dir::To2,
        }
    }

    /// The direction of travel that the request names.
    pub fn as_dir(self) -> (d: Dir)
        ensures
            d == self.dir(),
    {
        match self {
            ReqDir::To1 => Dir::To1,
            ReqDir::To2 => Dir::To2,
        }
    }
}

/// The response that tells nobody that nothing happened.
pub fn noop() -> (r: AddressResponse)
    ensures
        r@ == nop(),
{
    AddressResponse { whom: Address::NoOne, response: Response::Nop }
}

/// Ties a request to the player who makes it.
pub fn personal(id: PlayerId, r: Request) -> (p: PersonalRequest)
    ensures
        p == (PersonalRequest { player: id, request: r }),
{
    PersonalRequest { player: id, request: r }
}

/// A single response as the whole answer.
pub fn only(r: AddressResponse) -> (out: Vec<AddressResponse>)
    ensures
        events(out@) == seq![r@],
{
    let mut out: Vec<AddressResponse> = Vec::new();
    out.push(r);
    assert(events(out@) =~= seq![r@]);
    out
}

/// Two responses, in order, as the whole answer.
pub fn pair(a: AddressResponse, b: AddressResponse) -> (out: Vec<AddressResponse>)
    ensures
        events(out@) == seq![a@, b@],
{
    let mut out: Vec<AddressResponse> = Vec::new();
    out.push(a);
    out.push(b);
    assert(events(out@) =~= seq![a@, b@]);
    out
}

} // verus!
