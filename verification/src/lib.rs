//! Multi-Paxos as a set of message-driven role state machines.
//!
//! Every role (acceptor, leader with its scouts and commanders, replica) is a
//! value that consumes one inbound message at a time and hands back the
//! messages to send. Nothing in this crate touches the network, the clock or
//! the disk.
//!
//! - [`node`]: node identifiers and their order, roles, registry entries.
//! - [`state`]: the state machine that replicas apply decided commands to.
//! - [`paxos`]: ballots, commands, proposals and messages, and below it
//!   - [`paxos::acceptor`], [`paxos::leader`], [`paxos::replica`]: the roles;
//!   - [`paxos::tables`]: the hash tables of a replica;
//!   - [`paxos::dir`]: ports and the answer to an announcement;
//!   - [`paxos::ensemble`]: how the roles' steps fit together in a run, and
//!     that no run decides a command that no client asked for;
//!   - [`paxos::agreement`]: why replicas agree.

pub mod node;
pub mod paxos;
pub mod state;

pub use crate::node::Address;
pub use crate::node::Entry;
pub use crate::node::Identity;
pub use crate::node::IpAddress;
pub use crate::node::NodeId;
pub use crate::node::LOOPBACK;
pub use crate::state::ReplicaState;
pub use crate::state::StateMachine;
