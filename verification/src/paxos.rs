//! Ballots, commands, proposals and the messages the roles exchange.

pub mod acceptor;
pub mod agreement;
pub mod dir;
pub mod ensemble;
pub mod leader;
pub mod replica;
pub mod tables;

use vstd::prelude::*;
use std::cmp::Ordering;
use crate::node::Entry;
use crate::node::NodeId;

verus! {

/// A preemption token: one attempt by one leader to drive proposals.
/// Ballots are ordered by `num` first and by `leader_id` on a tie.
#[derive(Debug, Clone, Copy, Eq, Ord)]
pub struct Ballot {
    pub num: usize,
    pub leader_id: NodeId,
}

impl PartialEq for Ballot {
    fn eq(&self, other: &Ballot) -> (r: bool) {
        self.num == other.num && self.leader_id == other.leader_id
    }
}

impl vstd::std_specs::cmp::PartialEqSpecImpl for Ballot {
    open spec fn obeys_eq_spec() -> bool {
        true
    }

    open spec fn eq_spec(&self, other: &Ballot) -> bool {
        *self == *other
    }
}

impl PartialOrd for Ballot {
    fn partial_cmp(&self, other: &Ballot) -> (r: Option<Ordering>) {
        Some(self.compare(other))
    }
}

impl vstd::std_specs::cmp::PartialOrdSpecImpl for Ballot {
    open spec fn obeys_partial_cmp_spec() -> bool {
        true
    }

    open spec fn partial_cmp_spec(&self, other: &Ballot) -> Option<Ordering> {
        if self.precedes(*other) {
            Some(Ordering::Less)
        } else if *self == *other {
            Some(Ordering::Equal)
        } else {
            Some(Ordering::Greater)
        }
    }
}

/// What stands for a command in contracts: its fields, with the payload as a
/// sequence of characters.
pub ghost struct CommandView {
    pub client_id: usize,
    pub op_id: usize,
    pub op: Seq<char>,
}

/// A client's request: who asked, the client's sequence number, and the
/// payload handed to the state machine.
#[derive(Debug, Eq, Hash)]
pub struct Command {
    pub client_id: usize,
    pub op_id: usize,
    pub op: String,
}

impl View for Command {
    type V = CommandView;

    open spec fn view(&self) -> CommandView {
        CommandView { client_id: self.client_id, op_id: self.op_id, op: self.op@ }
    }
}

impl Clone for Command {
    fn clone(&self) -> (r: Command)
        ensures
            r == *self,
    {
        Command { client_id: self.client_id, op_id: self.op_id, op: self.op.clone() }
    }
}

impl PartialEq for Command {
    fn eq(&self, other: &Command) -> (r: bool) {
        self.client_id == other.client_id && self.op_id == other.op_id && self.op == other.op
    }
}

impl vstd::std_specs::cmp::PartialEqSpecImpl for Command {
    open spec fn obeys_eq_spec() -> bool {
        true
    }

    open spec fn eq_spec(&self, other: &Command) -> bool {
        self@ == other@
    }
}

/// A command bound to a slot under a ballot. Equality and order look at
/// `(slot, ballot)` only; order is defined within one slot.
#[derive(Debug)]
pub struct Proposal {
    pub slot: usize,
    pub ballot: Ballot,
    pub command: Command,
}

impl Clone for Proposal {
    fn clone(&self) -> (r: Proposal)
        ensures
            r == *self,
    {
        Proposal { slot: self.slot, ballot: self.ballot, command: self.command.clone() }
    }
}

impl PartialEq for Proposal {
    fn eq(&self, other: &Proposal) -> (r: bool) {
        self.slot == other.slot && self.ballot == other.ballot
    }
}

impl vstd::std_specs::cmp::PartialEqSpecImpl for Proposal {
    open spec fn obeys_eq_spec() -> bool {
        true
    }

    open spec fn eq_spec(&self, other: &Proposal) -> bool {
        self.same_key(*other)
    }
}

impl Eq for Proposal {

}

impl PartialOrd for Proposal {
    fn partial_cmp(&self, other: &Proposal) -> (r: Option<Ordering>) {
        if self.slot == other.slot {
            Some(self.ballot.compare(&other.ballot))
        } else {
            None
        }
    }
}

impl vstd::std_specs::cmp::PartialOrdSpecImpl for Proposal {
    open spec fn obeys_partial_cmp_spec() -> bool {
        true
    }

    open spec fn partial_cmp_spec(&self, other: &Proposal) -> Option<Ordering> {
        if self.slot != other.slot {
            None
        } else if self.ballot.precedes(other.ballot) {
            Some(Ordering::Less)
        } else if self.ballot == other.ballot {
            Some(Ordering::Equal)
        } else {
            Some(Ordering::Greater)
        }
    }
}

/// A handle that the transport layer gave to a remote endpoint.
#[derive(Debug, Clone, Copy, PartialEq, Eq, Structural, Hash)]
pub struct Endpoint {
    pub token: usize,
}

/// Everything that travels between clients, replicas, leaders and acceptors.
#[derive(Debug)]
pub enum Message {
    /// Client to replica.
    Request(Command),
    /// Replica to client: the client's sequence number, a text and the
    /// state machine's reply.
    Response(usize, String, Result<String, String>),
    /// Replica to leader: put this command into this slot.
    Propose(usize, Command),
    /// Commander to replica: this slot holds this command.
    Decision(usize, Command),
    /// Scout to acceptor: the addressed acceptor and the ballot to promise.
    Phase1a(NodeId, Ballot),
    /// Acceptor to scout: leader, acceptor, the acceptor's promise and its
    /// latest accepted proposals.
    Phase1b(NodeId, NodeId, Ballot, Vec<Proposal>),
    /// Commander to acceptor: leader and the proposal to accept.
    Phase2a(NodeId, Proposal),
    /// Acceptor to commander: leader, acceptor and a ballot.
    Phase2b(NodeId, NodeId, Ballot),
    /// Discovery: a node announces itself; the flag asks the receiver to
    /// announce itself in return.
    Identify(Entry, bool),
}

/// What stands for a message in contracts: the message with its texts as
/// sequences of characters and its list of proposals as a sequence.
pub ghost enum MessageView {
    Request(Command),
    Response(usize, Seq<char>, Result<Seq<char>, Seq<char>>),
    Propose(usize, Command),
    Decision(usize, Command),
    Phase1a(NodeId, Ballot),
    Phase1b(NodeId, NodeId, Ballot, Seq<Proposal>),
    Phase2a(NodeId, Proposal),
    Phase2b(NodeId, NodeId, Ballot),
    Identify(Entry, bool),
}

impl View for Message {
    type V = MessageView;

    open spec fn view(&self) -> MessageView {
        match *self {
            Message::Request(c) => MessageView::Request(c),
            Message::Response(n, text, reply) => MessageView::Response(n, text@, reply_view(reply)),
            Message::Propose(slot, c) => MessageView::Propose(slot, c),
            Message::Decision(slot, c) => MessageView::Decision(slot, c),
            Message::Phase1a(a, b) => MessageView::Phase1a(a, b),
            Message::Phase1b(l, a, b, pvalues) => MessageView::Phase1b(l, a, b, pvalues@),
            Message::Phase2a(l, p) => MessageView::Phase2a(l, p),
            Message::Phase2b(l, a, b) => MessageView::Phase2b(l, a, b),
            Message::Identify(e, reply) => MessageView::Identify(e, reply),
        }
    }
}

/// Where an outbound message goes.
#[derive(Debug, Clone, Copy)]
pub enum Destination {
    /// Every acceptor of the current membership.
    Acceptors,
    /// Every leader of the current membership.
    Leaders,
    /// Every replica of the current membership.
    Replicas,
    /// One node, by its identifier.
    Node(NodeId),
    /// The endpoint a client's request came from.
    Client(Endpoint),
}

/// A message together with where to send it.
#[derive(Debug)]
pub struct Outbound {
    pub to: Destination,
    pub message: Message,
}

/// What stands for an outbound message in contracts.
pub ghost struct OutboundView {
    pub to: Destination,
    pub message: MessageView,
}

impl View for Outbound {
    type V = OutboundView;

    open spec fn view(&self) -> OutboundView {
        OutboundView { to: self.to, message: self.message@ }
    }
}

/// What a state machine's reply looks like in contracts.
pub open spec fn reply_view(reply: Result<String, String>) -> Result<Seq<char>, Seq<char>> {
    match reply {
        Ok(s) => Ok(s@),
        Err(s) => Err(s@),
    }
}

/// Every command of `pvalues` is one of `known`.
pub open spec fn proposals_within(pvalues: Seq<Proposal>, known: Set<Command>) -> bool {
    forall|i: int| 0 <= i < pvalues.len() ==> known.contains((#[trigger] pvalues[i]).command)
}

/// Every command that `message` carries is one of `known`.
pub open spec fn message_within(message: MessageView, known: Set<Command>) -> bool {
    match message {
        MessageView::Request(c) => known.contains(c),
        MessageView::Propose(_, c) => known.contains(c),
        MessageView::Decision(_, c) => known.contains(c),
        MessageView::Phase2a(_, p) => known.contains(p.command),
        MessageView::Phase1b(_, _, _, pvalues) => proposals_within(pvalues, known),
        _ => true,
    }
}

/// The views of a list of outbound messages, in order.
pub open spec fn outbound_views(out: Seq<Outbound>) -> Seq<OutboundView> {
    out.map_values(|o: Outbound| o@)
}

/// Every command that the messages of `out` carry is one of `known`.
pub open spec fn outbound_within(out: Seq<OutboundView>, known: Set<Command>) -> bool {
    forall|i: int| 0 <= i < out.len() ==> message_within((#[trigger] out[i]).message, known)
}

/// Quorum size for `n` acceptors: a strict majority.
pub open spec fn quorum_size(n: nat) -> nat {
    n / 2 + 1
}

impl Ballot {
    /// Strict order on ballots.
    pub open spec fn precedes(self, other: Ballot) -> bool {
        self.num < other.num || (self.num == other.num && self.leader_id.precedes(
            other.leader_id,
        ))
    }

    /// `self` is `other` or comes before it.
    pub open spec fn at_most(self, other: Ballot) -> bool {
        self == other || self.precedes(other)
    }

    /// The ballot with number `num` of the leader `leader_id`.
    pub fn new(num: usize, leader_id: NodeId) -> (b: Ballot)
        ensures
            b == (Ballot { num, leader_id }),
    {
        Ballot { num, leader_id }
    }

    /// Three-way comparison: `num` first, `leader_id` on a tie.
    pub fn compare(&self, other: &Ballot) -> (r: Ordering)
        ensures
            r == Ordering::Less <==> self.precedes(*other),
            r == Ordering::Equal <==> *self == *other,
            r == Ordering::Greater <==> other.precedes(*self),
    {
        proof {
            crate::node::lemma_order_is_strict(self.leader_id, other.leader_id);
        }
        if self.num < other.num {
            Ordering::Less
        } else if self.num > other.num {
            Ordering::Greater
        } else {
            self.leader_id.compare(&other.leader_id)
        }
    }
}

impl Proposal {
    /// Same slot and same ballot.
    pub open spec fn same_key(self, other: Proposal) -> bool {
        self.slot == other.slot && self.ballot == other.ballot
    }

    /// Total comparison: the ballots decide within a slot, and proposals of
    /// different slots count as equal.
    pub fn cmp(&self, other: &Proposal) -> (r: Ordering)
        ensures
            self.slot != other.slot ==> r == Ordering::Equal,
            self.slot == other.slot ==> (r == Ordering::Less <==> self.ballot.precedes(
                other.ballot,
            )),
            self.slot == other.slot ==> (r == Ordering::Equal <==> self.ballot == other.ballot),
            self.slot == other.slot ==> (r == Ordering::Greater <==> other.ballot.precedes(
                self.ballot,
            )),
    {
        if self.slot == other.slot {
            self.ballot.compare(&other.ballot)
        } else {
            Ordering::Equal
        }
    }
}

/// The quorum size for `n` acceptors.
pub fn quorum(n: usize) -> (q: usize)
    ensures
        q == quorum_size(n as nat),
{
    n / 2 + 1
}

/// Two ballots are either equal or ordered one way, never both.
pub proof fn lemma_ballot_order_is_strict(a: Ballot, b: Ballot)
    ensures
        a == b || a.precedes(b) || b.precedes(a),
        !(a.precedes(b) && b.precedes(a)),
        a.precedes(b) ==> a != b,
{
    crate::node::lemma_order_is_strict(a.leader_id, b.leader_id);
}

/// The order on ballots is transitive.
pub proof fn lemma_ballot_order_is_transitive(a: Ballot, b: Ballot, c: Ballot)
    requires
        a.precedes(b),
        b.precedes(c),
    ensures
        a.precedes(c),
{
    if a.num == b.num && b.num == c.num {
        crate::node::lemma_order_is_transitive(a.leader_id, b.leader_id, c.leader_id);
    }
}

} // verus!
