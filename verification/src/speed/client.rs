//! What the speed daemon makes of each message from a client, given what
//! the client has said it is.
use vstd::prelude::*;
use vstd::string::StringExecFns;
use crate::speed::DecodedMsg;

verus! {

/// What a client has identified itself as.
#[derive(Debug, Clone, PartialEq, Eq)]
pub enum ClientType {
    /// A camera: its road, its mile, and the road's speed limit.
    Camera(u16, u16, u16),
    /// A dispatcher: its id and the roads it serves.
    Dispatcher(u16, Vec<u16>),
    Unknown,
}

/// A reading of a plate: when, and at which mile.
#[derive(Ord, PartialOrd, Eq, PartialEq, Clone, Debug)]
pub struct Reading {
    pub ts: u32,
    pub mile: u16,
}

impl Reading {
    pub fn new(ts: u32, mile: u16) -> (r: Self)
        ensures
            r.ts == ts,
            r.mile == mile,
    {
        Self { ts, mile }
    }
}

/// What the server does about a client's message.
#[derive(Debug, PartialEq, Eq)]
pub enum ClientAction {
    /// Send the client an error with this text; close the connection where
    /// `close` holds.
    Reject(String, bool),
    /// The client is a camera from now on: road, mile, limit.
    BecomeCamera(u16, u16, u16),
    /// The client is a dispatcher for these roads from now on, under the
    /// next dispatcher id.
    BecomeDispatcher(Vec<u16>),
    /// Send the client a heartbeat every so many tenths of a second.
    StartHeartbeat(u32),
    /// A camera saw a plate: the plate, the time, and the camera's road,
    /// mile and limit.
    Record(String, u32, u16, u16, u16),
    /// Nothing to do.
    Nothing,
}

/// `unknown message`.
pub open spec fn unknown_text() -> Seq<char> {
    "unknown message"@
}

/// `heartbeat already set`.
pub open spec fn heartbeat_text() -> Seq<char> {
    "heartbeat already set"@
}

/// `client already identified itself`.
pub open spec fn identified_text() -> Seq<char> {
    "client already identified itself"@
}

/// What the server does about `msg` from a client that is `me`, heartbeats
/// already running where `heartbeat_set` holds: an unknown message is
/// refused and ends the connection; a plate from anything but a camera
/// likewise; a second heartbeat request likewise; a heartbeat request of
/// zero does nothing; a client that has identified itself may not do so
/// again, but stays connected.
pub fn decide(me: &ClientType, msg: DecodedMsg, heartbeat_set: bool) -> (r: ClientAction)
    ensures
        match msg {
            DecodedMsg::Unknown => r matches ClientAction::Reject(t, close) && t@ == unknown_text() && close,
            DecodedMsg::Plate(p) => match *me {
                ClientType::Camera(road, mile, limit) => r matches ClientAction::Record(plate, ts, r2, m2, l2)
                    && plate@ == p.plate@ && ts == p.ts && r2 == road && m2 == mile && l2 == limit,
                _ => r matches ClientAction::Reject(t, close) && t@ == unknown_text() && close,
            },
            DecodedMsg::WantHeartbeat(w) => if heartbeat_set {
                r matches ClientAction::Reject(t, close) && t@ == heartbeat_text() && close
            } else if w.interval > 0 {
                r == ClientAction::StartHeartbeat(w.interval)
            } else {
                r == ClientAction::Nothing
            },
            DecodedMsg::IAmCamera(c) => match *me {
                ClientType::Unknown => r == ClientAction::BecomeCamera(c.road, c.mile, c.limit),
                _ => r matches ClientAction::Reject(t, close) && t@ == identified_text() && !close,
            },
            DecodedMsg::IAmDispatcher(d) => match *me {
                ClientType::Unknown => r matches ClientAction::BecomeDispatcher(roads) && roads@ == d.roads@,
                _ => r matches ClientAction::Reject(t, close) && t@ == identified_text() && !close,
            },
        },
{
    match msg {
        DecodedMsg::Unknown => ClientAction::Reject(String::from_str("unknown message"), true),
        DecodedMsg::Plate(p) => match me {
            ClientType::Camera(road, mile, limit) => ClientAction::Record(p.plate, p.ts, *road, *mile, *limit),
            _ => ClientAction::Reject(String::from_str("unknown message"), true),
        },
        DecodedMsg::WantHeartbeat(w) => {
            if heartbeat_set {
                ClientAction::Reject(String::from_str("heartbeat already set"), true)
            } else if w.interval > 0 {
                ClientAction::StartHeartbeat(w.interval)
            } else {
                ClientAction::Nothing
            }
        },
        DecodedMsg::IAmCamera(c) => match me {
            ClientType::Unknown => ClientAction::BecomeCamera(c.road, c.mile, c.limit),
            _ => ClientAction::Reject(String::from_str("client already identified itself"), false),
        },
        DecodedMsg::IAmDispatcher(d) => match me {
            ClientType::Unknown => ClientAction::BecomeDispatcher(d.roads),
            _ => ClientAction::Reject(String::from_str("client already identified itself"), false),
        },
    }
}

/// Whether a ticket for dispatcher `target` goes to this client: only the
/// dispatcher with that id takes it.
pub fn takes_ticket(me: &ClientType, target: u16) -> (r: bool)
    ensures
        r == (*me matches ClientType::Dispatcher(id, _) && id == target),
{
    match me {
        ClientType::Dispatcher(id, _) => *id == target,
        _ => false,
    }
}

/// Whether a new dispatcher for `roads` takes this client's saved tickets:
/// it does where the client is a camera on one of those roads.
pub fn hands_backlog(me: &ClientType, roads: &Vec<u16>) -> (r: bool)
    ensures
        r == (*me matches ClientType::Camera(road, _, _) && roads@.contains(road)),
{
    match me {
        ClientType::Camera(road, _, _) => {
            let mut i: usize = 0;
            while i < roads.len()
                invariant
                    i <= roads@.len(),
                    *me matches ClientType::Camera(rd, _, _) && rd == *road,
                    forall|j: int| 0 <= j < i ==> roads@[j] != *road,
                decreases roads@.len() - i,
            {
                if roads[i] == *road {
                    assert(roads@[i as int] == *road);
                    return true;
                }
                i = i + 1;
            }
            false
        },
        _ => false,
    }
}

} // verus!
