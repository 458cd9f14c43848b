//! What the roles need to find each other: the ports they listen on and
//! the answer to an announcement.

use vstd::prelude::*;
use crate::node::Entry;
use crate::node::Identity;
use crate::paxos::Message;
use crate::paxos::MessageView;

verus! {

/// The first port of the leaders.
pub const LEADER_PORT: u16 = 4000;

/// The first port of the scouts.
pub const SCOUT_PORT: u16 = 4500;

/// The first port of the commanders.
pub const COMMANDER_PORT: u16 = 5000;

/// The first port of the replicas.
pub const REPLICA_PORT: u16 = 6000;

/// The first port of the acceptors.
pub const ACCEPTOR_PORT: u16 = 8000;

/// The first port of the clients.
pub const CLIENT_PORT: u16 = 9000;

/// The port on which every node listens for announcements.
pub const IDENTIFY_PORT: u16 = 3000;

/// The first port of the range that nodes of a kind listen on. Only the
/// three roles of this protocol have one.
pub open spec fn base_port(kind: Identity) -> Option<u16> {
    match kind {
        Identity::Acceptor => Some(ACCEPTOR_PORT),
        Identity::Leader => Some(LEADER_PORT),
        Identity::Replica => Some(REPLICA_PORT),
        Identity::Server => None,
    }
}

/// The port for a new node of `kind` on a host where `local` nodes of that
/// kind run already: the kind's first port plus `local`, if the kind has a
/// range and that port exists.
pub open spec fn listen_port_of(kind: Identity, local: usize) -> Option<u16> {
    match base_port(kind) {
        Some(base) => if base + local <= u16::MAX {
            Some((base + local) as u16)
        } else {
            None
        },
        None => None,
    }
}

/// The port for a new node of `kind` on a host where `local` nodes of that
/// kind run already.
pub fn listen_port(kind: Identity, local: usize) -> (r: Option<u16>)
    ensures
        r == listen_port_of(kind, local),
{
    let base: u16 = match kind {
        Identity::Acceptor => ACCEPTOR_PORT,
        Identity::Leader => LEADER_PORT,
        Identity::Replica => REPLICA_PORT,
        Identity::Server => {
            return None;
        },
    };
    if local <= (u16::MAX - base) as usize {
        Some(base + local as u16)
    } else {
        None
    }
}

/// The answer of the node `own` to an announcement: its own announcement,
/// which asks for no answer in turn, if the announcement asked for one.
pub fn answer_identify(own: Entry, reply: bool) -> (r: Option<Message>)
    ensures
        r is Some <==> reply,
        r matches Some(m) ==> m@ == MessageView::Identify(own, false),
{
    if reply {
        Some(Message::Identify(own, false))
    } else {
        None
    }
}

} // verus!
