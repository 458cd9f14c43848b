//! The ensemble as a whole: acceptors, leaders and replicas that exchange
//! messages over a network that may lose, repeat and reorder them. This
//! module holds no executable code. It states how the roles' steps fit
//! together, and what then holds of every run.

use vstd::prelude::*;
use crate::node::NodeId;
use crate::paxos::acceptor::AcceptorView;
use crate::paxos::leader::LeaderView;
use crate::paxos::replica::ReplicaView;
use crate::paxos::Ballot;
use crate::paxos::Command;
use crate::paxos::Destination;
use crate::paxos::Endpoint;
use crate::paxos::MessageView;
use crate::paxos::OutboundView;
use crate::state::StateMachine;

verus! {

/// A message that was sent, with what the transport knows of it.
pub ghost enum Packet {
    /// What a replica or a leader sent.
    Sent { from: NodeId, out: OutboundView },
    /// What an acceptor answered to the leader that asked. The answer to a
    /// second-phase request comes back to the commander that asked, known
    /// by its slot and ballot.
    Answer { leader: NodeId, commander: Option<(usize, Ballot)>, message: MessageView },
}

/// The state of all nodes, the commands that clients have asked for, and
/// every message sent so far. A message that was sent can be delivered at
/// any later time, any number of times, or never.
pub ghost struct Ensemble<S> {
    pub acceptors: Map<NodeId, AcceptorView>,
    pub leaders: Map<NodeId, LeaderView>,
    pub replicas: Map<NodeId, ReplicaView<S>>,
    pub requested: Set<Command>,
    pub wire: Set<Packet>,
}

/// One thing that happens in the ensemble.
pub ghost enum Event {
    /// A client hands `command` to a replica.
    Request { replica: NodeId, from: Endpoint, command: Command },
    /// A leader takes a proposal that `sender` sent.
    Propose { leader: NodeId, sender: NodeId, slot: usize, command: Command },
    /// An acceptor takes a first-phase or second-phase request of `leader`.
    Ask { acceptor: NodeId, leader: NodeId, message: MessageView },
    /// A leader takes an acceptor's answer.
    Answer { leader: NodeId, commander: Option<(usize, Ballot)>, message: MessageView },
    /// A replica takes a decision that `leader` announced.
    Decide { replica: NodeId, leader: NodeId, slot: usize, command: Command },
}

/// The packets for what `from` sends.
pub open spec fn sent_by(from: NodeId, out: Seq<OutboundView>) -> Set<Packet> {
    Set::new(
        |p: Packet| exists|i: int| 0 <= i < out.len() && p == (Packet::Sent { from, out: out[i] }),
    )
}

/// Whether `event` can happen in `e`: the node exists, and what it takes
/// was sent to it.
pub open spec fn enabled<S>(e: Ensemble<S>, event: Event) -> bool {
    match event {
        Event::Request { replica, .. } => e.replicas.contains_key(replica),
        Event::Propose { leader, sender, slot, command } => {
            &&& e.leaders.contains_key(leader)
            &&& e.wire.contains(
                Packet::Sent {
                    from: sender,
                    out: OutboundView {
                        to: Destination::Leaders,
                        message: MessageView::Propose(slot, command),
                    },
                },
            )
        },
        Event::Ask { acceptor, leader, message } => {
            &&& e.acceptors.contains_key(acceptor)
            &&& match message {
                MessageView::Phase1a(..) => e.wire.contains(
                    Packet::Sent {
                        from: leader,
                        out: OutboundView { to: Destination::Node(acceptor), message },
                    },
                ),
                MessageView::Phase2a(..) => e.wire.contains(
                    Packet::Sent {
                        from: leader,
                        out: OutboundView { to: Destination::Acceptors, message },
                    },
                ),
                _ => false,
            }
        },
        Event::Answer { leader, commander, message } => {
            &&& e.leaders.contains_key(leader)
            &&& e.wire.contains(Packet::Answer { leader, commander, message })
        },
        Event::Decide { replica, leader, slot, command } => {
            &&& e.replicas.contains_key(replica)
            &&& e.wire.contains(
                Packet::Sent {
                    from: leader,
                    out: OutboundView {
                        to: Destination::Replicas,
                        message: MessageView::Decision(slot, command),
                    },
                },
            )
        },
    }
}

/// The commander that a request of a leader comes from, if it is a
/// second-phase request.
pub open spec fn asking_commander(message: MessageView) -> Option<(usize, Ballot)> {
    match message {
        MessageView::Phase2a(_, p) => Some((p.slot, p.ballot)),
        _ => None,
    }
}

/// The ensemble after `event`.
pub open spec fn step<S: StateMachine>(e: Ensemble<S>, event: Event) -> Ensemble<S> {
    match event {
        Event::Request { replica, from, command } => {
            let (after, out) = crate::paxos::replica::request(e.replicas[replica], command, from);
            Ensemble {
                replicas: e.replicas.insert(replica, after),
                requested: e.requested.insert(command),
                wire: e.wire.union(sent_by(replica, out)),
                ..e
            }
        },
        Event::Propose { leader, slot, command, .. } => {
            let (after, out) = crate::paxos::leader::leader_propose(
                e.leaders[leader],
                slot,
                command,
            );
            Ensemble {
                leaders: e.leaders.insert(leader, after),
                wire: e.wire.union(sent_by(leader, out)),
                ..e
            }
        },
        Event::Ask { acceptor, leader, message } => {
            let (after, answer) = crate::paxos::acceptor::acceptor_step(
                e.acceptors[acceptor],
                message,
            );
            Ensemble {
                acceptors: e.acceptors.insert(acceptor, after),
                wire: match answer {
                    Some(reply) => e.wire.insert(
                        Packet::Answer {
                            leader,
                            commander: asking_commander(message),
                            message: reply,
                        },
                    ),
                    None => e.wire,
                },
                ..e
            }
        },
        Event::Answer { leader, commander, message } => {
            let (after, out) = match (commander, message) {
                (Some((slot, ballot)), MessageView::Phase2b(_, acceptor, reported)) => {
                    crate::paxos::leader::leader_phase2b(
                        e.leaders[leader],
                        slot,
                        ballot,
                        acceptor,
                        reported,
                    )
                },
                (None, MessageView::Phase1b(_, acceptor, reported, accepted)) => {
                    crate::paxos::leader::leader_phase1b(
                        e.leaders[leader],
                        acceptor,
                        reported,
                        accepted,
                    )
                },
                _ => (e.leaders[leader], Seq::empty()),
            };
            Ensemble {
                leaders: e.leaders.insert(leader, after),
                wire: e.wire.union(sent_by(leader, out)),
                ..e
            }
        },
        Event::Decide { replica, slot, command, .. } => {
            match crate::paxos::replica::decide(e.replicas[replica], slot, command) {
                Ok((after, out)) => Ensemble {
                    replicas: e.replicas.insert(replica, after),
                    wire: e.wire.union(sent_by(replica, out)),
                    ..e
                },
                Err(_) => e,
            }
        },
    }
}

/// How an ensemble with the acceptors `acceptors` starts: the acceptors
/// have promised and accepted nothing, every leader has just started with
/// those acceptors, the replicas are fresh, no client has asked for
/// anything, and the wire holds what the leaders' scouts sent.
pub open spec fn initial<S>(e: Ensemble<S>, acceptors: Seq<NodeId>) -> bool {
    &&& forall|a: NodeId| #[trigger] e.acceptors.contains_key(a) <==> acceptors.contains(a)
    &&& forall|a: NodeId| #[trigger]
        e.acceptors.contains_key(a) ==> e.acceptors[a] == (AcceptorView {
            id: a,
            ballot: None,
            accepted: Seq::empty(),
        })
    &&& forall|l: NodeId| #[trigger]
        e.leaders.contains_key(l) ==> e.leaders[l] == crate::paxos::leader::leader_start(
            l,
            acceptors,
        ).0
    &&& forall|r: NodeId| #[trigger]
        e.replicas.contains_key(r) ==> e.replicas[r] == crate::paxos::replica::fresh(
            r,
            e.replicas[r].initial,
        )
    &&& e.requested == Set::<Command>::empty()
    &&& forall|p: Packet| #[trigger]
        e.wire.contains(p) ==> exists|l: NodeId|
            e.leaders.contains_key(l) && sent_by(
                l,
                crate::paxos::leader::leader_start(l, acceptors).1,
            ).contains(p)
}

/// `states` is a run of an ensemble with the acceptors `acceptors`: it
/// starts as an ensemble starts, and each state follows from the one
/// before by an event that can happen there.
pub open spec fn is_run<S: StateMachine>(
    states: Seq<Ensemble<S>>,
    events: Seq<Event>,
    acceptors: Seq<NodeId>,
) -> bool {
    &&& states.len() == events.len() + 1
    &&& initial(states[0], acceptors)
    &&& forall|i: int|
        0 <= i < events.len() ==> enabled(states[i], #[trigger] events[i]) && states[i + 1]
            == step(states[i], events[i])
}

/// Nothing in the ensemble holds a command that no client asked for, and
/// every leader is well formed.
pub open spec fn nothing_invented<S>(e: Ensemble<S>) -> bool {
    &&& forall|a: NodeId| #[trigger]
        e.acceptors.contains_key(a) ==> crate::paxos::proposals_within(
            e.acceptors[a].accepted,
            e.requested,
        )
    &&& forall|l: NodeId| #[trigger]
        e.leaders.contains_key(l) ==> crate::paxos::leader::leader_within(
            e.leaders[l],
            e.requested,
        ) && crate::paxos::leader::leader_wf(e.leaders[l])
    &&& forall|r: NodeId| #[trigger]
        e.replicas.contains_key(r) ==> crate::paxos::replica::replica_within(
            e.replicas[r],
            e.requested,
        )
    &&& forall|p: Packet| #[trigger]
        e.wire.contains(p) ==> crate::paxos::message_within(p.message(), e.requested)
}

/// In `event` a client hands `command` to a replica.
pub open spec fn asks_for(event: Event, command: Command) -> bool {
    match event {
        Event::Request { command: c, .. } => c == command,
        _ => false,
    }
}

impl Packet {
    /// The message in the packet.
    pub open spec fn message(self) -> MessageView {
        match self {
            Packet::Sent { out, .. } => out.message,
            Packet::Answer { message, .. } => message,
        }
    }
}

/// What is sent with known commands makes packets with known commands.
proof fn lemma_sent_within(from: NodeId, out: Seq<OutboundView>, known: Set<Command>)
    requires
        crate::paxos::outbound_within(out, known),
    ensures
        forall|p: Packet| #[trigger]
            sent_by(from, out).contains(p) ==> crate::paxos::message_within(p.message(), known),
{
    assert forall|p: Packet| #[trigger] sent_by(from, out).contains(p) implies crate::paxos::message_within(
        p.message(),
        known,
    ) by {
        let i = choose|i: int| 0 <= i < out.len() && p == (Packet::Sent { from, out: out[i] });
        assert(crate::paxos::message_within(out[i].message, known));
    }
}

/// An ensemble starts with nothing invented.
proof fn lemma_initial_invents_nothing<S>(e: Ensemble<S>, acceptors: Seq<NodeId>)
    requires
        initial(e, acceptors),
    ensures
        nothing_invented(e),
{
    assert forall|l: NodeId| #[trigger] e.leaders.contains_key(l) implies crate::paxos::leader::leader_within(
        e.leaders[l],
        e.requested,
    ) && crate::paxos::leader::leader_wf(e.leaders[l]) by {
        crate::paxos::leader::lemma_leader_starts_wf(l, acceptors);
    }
    assert forall|p: Packet| #[trigger] e.wire.contains(p) implies crate::paxos::message_within(
        p.message(),
        e.requested,
    ) by {
        let l = choose|l: NodeId|
            e.leaders.contains_key(l) && sent_by(
                l,
                crate::paxos::leader::leader_start(l, acceptors).1,
            ).contains(p);
        let out = crate::paxos::leader::leader_start(l, acceptors).1;
        let i = choose|i: int| 0 <= i < out.len() && p == (Packet::Sent { from: l, out: out[i] });
    }
}

/// A larger set of known commands keeps everything within it.
proof fn lemma_more_requested<S>(e: Ensemble<S>, command: Command)
    requires
        nothing_invented(e),
    ensures
        nothing_invented(Ensemble { requested: e.requested.insert(command), ..e }),
{
    let more = Ensemble { requested: e.requested.insert(command), ..e };
    assert forall|a: NodeId| #[trigger] more.acceptors.contains_key(a) implies crate::paxos::proposals_within(
        more.acceptors[a].accepted,
        more.requested,
    ) by {
        let accepted = e.acceptors[a].accepted;
        assert(crate::paxos::proposals_within(accepted, e.requested));
        assert forall|i: int| 0 <= i < accepted.len() implies more.requested.contains(
            (#[trigger] accepted[i]).command,
        ) by {
            assert(e.requested.contains(accepted[i].command));
        }
    }
    assert forall|l: NodeId| #[trigger] more.leaders.contains_key(l) implies crate::paxos::leader::leader_within(
        more.leaders[l],
        more.requested,
    ) && crate::paxos::leader::leader_wf(more.leaders[l]) by {
        let leader = e.leaders[l];
        assert(crate::paxos::leader::leader_within(leader, e.requested));
        assert forall|slot: usize| leader.proposals.contains_key(slot) implies more.requested.contains(
            #[trigger] leader.proposals[slot],
        ) by {
            assert(e.requested.contains(leader.proposals[slot]));
        }
        assert forall|i: int| 0 <= i < leader.commanders.len() implies more.requested.contains(
            (#[trigger] leader.commanders[i]).proposal.command,
        ) by {
            assert(e.requested.contains(leader.commanders[i].proposal.command));
        }
        if leader.scout is Some {
            let pvalues = leader.scout.unwrap().pvalues;
            assert forall|i: int| 0 <= i < pvalues.len() implies more.requested.contains(
                (#[trigger] pvalues[i]).command,
            ) by {
                assert(e.requested.contains(pvalues[i].command));
            }
        }
    }
    assert forall|r: NodeId| #[trigger] more.replicas.contains_key(r) implies crate::paxos::replica::replica_within(
        more.replicas[r],
        more.requested,
    ) by {
        let replica = e.replicas[r];
        assert(crate::paxos::replica::replica_within(replica, e.requested));
        assert forall|i: int| 0 <= i < replica.requests.len() implies more.requested.contains(
            #[trigger] replica.requests[i],
        ) by {
            assert(e.requested.contains(replica.requests[i]));
        }
        assert forall|slot: usize| replica.proposals.contains_key(slot) implies more.requested.contains(
            #[trigger] replica.proposals[slot],
        ) by {
            assert(e.requested.contains(replica.proposals[slot]));
        }
        assert forall|slot: usize| replica.decisions.contains_key(slot) implies more.requested.contains(
            #[trigger] replica.decisions[slot],
        ) by {
            assert(e.requested.contains(replica.decisions[slot]));
        }
    }
    assert forall|p: Packet| #[trigger] more.wire.contains(p) implies crate::paxos::message_within(
        p.message(),
        more.requested,
    ) by {
        assert(crate::paxos::message_within(p.message(), e.requested));
        match p.message() {
            MessageView::Phase1b(_, _, _, pvalues) => {
                assert forall|i: int| 0 <= i < pvalues.len() implies more.requested.contains(
                    (#[trigger] pvalues[i]).command,
                ) by {
                    assert(e.requested.contains(pvalues[i].command));
                }
            },
            _ => {},
        }
    }
}

/// Frame: with one leader replaced by a well-formed one that holds only
/// known commands, and with what it sent added to the wire, nothing is
/// invented.
proof fn lemma_leader_moves<S>(
    e: Ensemble<S>,
    leader: NodeId,
    after: LeaderView,
    out: Seq<OutboundView>,
)
    requires
        nothing_invented(e),
        crate::paxos::leader::leader_wf(after),
        crate::paxos::leader::leader_within(after, e.requested),
        crate::paxos::outbound_within(out, e.requested),
    ensures
        nothing_invented(
            Ensemble {
                leaders: e.leaders.insert(leader, after),
                wire: e.wire.union(sent_by(leader, out)),
                ..e
            },
        ),
{
    let next = Ensemble {
        leaders: e.leaders.insert(leader, after),
        wire: e.wire.union(sent_by(leader, out)),
        ..e
    };
    lemma_sent_within(leader, out, e.requested);
    assert forall|l: NodeId| #[trigger] next.leaders.contains_key(l) implies crate::paxos::leader::leader_within(
        next.leaders[l],
        next.requested,
    ) && crate::paxos::leader::leader_wf(next.leaders[l]) by {
        if l != leader {
            assert(e.leaders.contains_key(l));
        }
    }
    assert forall|p: Packet| #[trigger] next.wire.contains(p) implies crate::paxos::message_within(
        p.message(),
        next.requested,
    ) by {
        if !sent_by(leader, out).contains(p) {
            assert(e.wire.contains(p));
        }
    }
    assert forall|a: NodeId| #[trigger] next.acceptors.contains_key(a) implies crate::paxos::proposals_within(
        next.acceptors[a].accepted,
        next.requested,
    ) by {
        assert(e.acceptors.contains_key(a));
    }
    assert forall|r: NodeId| #[trigger] next.replicas.contains_key(r) implies crate::paxos::replica::replica_within(
        next.replicas[r],
        next.requested,
    ) by {
        assert(e.replicas.contains_key(r));
    }
}

/// Frame: with one replica replaced by one that holds only known commands,
/// and with what it sent added to the wire, nothing is invented.
proof fn lemma_replica_moves<S>(
    e: Ensemble<S>,
    replica: NodeId,
    after: ReplicaView<S>,
    out: Seq<OutboundView>,
)
    requires
        nothing_invented(e),
        crate::paxos::replica::replica_within(after, e.requested),
        crate::paxos::outbound_within(out, e.requested),
    ensures
        nothing_invented(
            Ensemble {
                replicas: e.replicas.insert(replica, after),
                wire: e.wire.union(sent_by(replica, out)),
                ..e
            },
        ),
{
    let next = Ensemble {
        replicas: e.replicas.insert(replica, after),
        wire: e.wire.union(sent_by(replica, out)),
        ..e
    };
    lemma_sent_within(replica, out, e.requested);
    assert forall|l: NodeId| #[trigger] next.leaders.contains_key(l) implies crate::paxos::leader::leader_within(
        next.leaders[l],
        next.requested,
    ) && crate::paxos::leader::leader_wf(next.leaders[l]) by {
        assert(e.leaders.contains_key(l));
    }
    assert forall|p: Packet| #[trigger] next.wire.contains(p) implies crate::paxos::message_within(
        p.message(),
        next.requested,
    ) by {
        if !sent_by(replica, out).contains(p) {
            assert(e.wire.contains(p));
        }
    }
    assert forall|a: NodeId| #[trigger] next.acceptors.contains_key(a) implies crate::paxos::proposals_within(
        next.acceptors[a].accepted,
        next.requested,
    ) by {
        assert(e.acceptors.contains_key(a));
    }
    assert forall|r: NodeId| #[trigger] next.replicas.contains_key(r) implies crate::paxos::replica::replica_within(
        next.replicas[r],
        next.requested,
    ) by {
        if r != replica {
            assert(e.replicas.contains_key(r));
        }
    }
}

/// No event makes a node hold, or the wire carry, a command that no
/// client asked for.
pub proof fn lemma_step_invents_nothing<S: StateMachine>(e: Ensemble<S>, event: Event)
    requires
        nothing_invented(e),
        enabled(e, event),
    ensures
        nothing_invented(step(e, event)),
{
    match event {
        Event::Request { replica, from, command } => {
            let more = Ensemble { requested: e.requested.insert(command), ..e };
            lemma_more_requested(e, command);
            assert(more.replicas.contains_key(replica));
            crate::paxos::replica::lemma_replica_invents_nothing(
                more.replicas[replica],
                from,
                MessageView::Request(command),
                more.requested,
            );
            let (after, out) = crate::paxos::replica::request(e.replicas[replica], command, from);
            lemma_replica_moves(more, replica, after, out);
        },
        Event::Propose { leader, sender, slot, command } => {
            let packet = Packet::Sent {
                from: sender,
                out: OutboundView {
                    to: Destination::Leaders,
                    message: MessageView::Propose(slot, command),
                },
            };
            assert(crate::paxos::message_within(packet.message(), e.requested));
            crate::paxos::leader::lemma_propose_within(
                e.leaders[leader],
                slot,
                command,
                e.requested,
            );
            crate::paxos::leader::lemma_propose_wf(e.leaders[leader], slot, command);
            let (after, out) = crate::paxos::leader::leader_propose(
                e.leaders[leader],
                slot,
                command,
            );
            lemma_leader_moves(e, leader, after, out);
        },
        Event::Ask { acceptor, leader, message } => {
            let packet = Packet::Sent {
                from: leader,
                out: OutboundView {
                    to: if message is Phase1a {
                        Destination::Node(acceptor)
                    } else {
                        Destination::Acceptors
                    },
                    message,
                },
            };
            assert(e.wire.contains(packet));
            assert(crate::paxos::message_within(packet.message(), e.requested));
            crate::paxos::acceptor::lemma_acceptor_invents_nothing(
                e.acceptors[acceptor],
                message,
                e.requested,
            );
            let next = step(e, event);
            assert forall|a: NodeId| #[trigger] next.acceptors.contains_key(a) implies crate::paxos::proposals_within(
                next.acceptors[a].accepted,
                next.requested,
            ) by {
                if a != acceptor {
                    assert(e.acceptors.contains_key(a));
                }
            }
            assert forall|l: NodeId| #[trigger] next.leaders.contains_key(l) implies crate::paxos::leader::leader_within(
                next.leaders[l],
                next.requested,
            ) && crate::paxos::leader::leader_wf(next.leaders[l]) by {
                assert(e.leaders.contains_key(l));
            }
            assert forall|r: NodeId| #[trigger] next.replicas.contains_key(r) implies crate::paxos::replica::replica_within(
                next.replicas[r],
                next.requested,
            ) by {
                assert(e.replicas.contains_key(r));
            }
            assert forall|p: Packet| #[trigger] next.wire.contains(p) implies crate::paxos::message_within(
                p.message(),
                next.requested,
            ) by {
                if e.wire.contains(p) {
                }
            }
        },
        Event::Answer { leader, commander, message } => {
            let packet = Packet::Answer { leader, commander, message };
            assert(crate::paxos::message_within(packet.message(), e.requested));
            let l = e.leaders[leader];
            match (commander, message) {
                (Some((slot, ballot)), MessageView::Phase2b(_, acceptor, reported)) => {
                    crate::paxos::leader::lemma_phase2b_within(
                        l,
                        slot,
                        ballot,
                        acceptor,
                        reported,
                        e.requested,
                    );
                    crate::paxos::leader::lemma_phase2b_wf(l, slot, ballot, acceptor, reported);
                    let (after, out) = crate::paxos::leader::leader_phase2b(
                        l,
                        slot,
                        ballot,
                        acceptor,
                        reported,
                    );
                    lemma_leader_moves(e, leader, after, out);
                },
                (None, MessageView::Phase1b(_, acceptor, reported, accepted)) => {
                    crate::paxos::leader::lemma_phase1b_within(
                        l,
                        acceptor,
                        reported,
                        accepted,
                        e.requested,
                    );
                    crate::paxos::leader::lemma_phase1b_wf(l, acceptor, reported, accepted);
                    let (after, out) = crate::paxos::leader::leader_phase1b(
                        l,
                        acceptor,
                        reported,
                        accepted,
                    );
                    lemma_leader_moves(e, leader, after, out);
                },
                _ => {
                    lemma_leader_moves(e, leader, l, Seq::empty());
                },
            }
        },
        Event::Decide { replica, leader, slot, command } => {
            let packet = Packet::Sent {
                from: leader,
                out: OutboundView {
                    to: Destination::Replicas,
                    message: MessageView::Decision(slot, command),
                },
            };
            assert(crate::paxos::message_within(packet.message(), e.requested));
            let message = MessageView::Decision(slot, command);
            if crate::paxos::replica::decide(e.replicas[replica], slot, command) is Ok {
                crate::paxos::replica::lemma_replica_invents_nothing(
                    e.replicas[replica],
                    Endpoint { token: 0 },
                    message,
                    e.requested,
                );
                let (after, out) = crate::paxos::replica::decide(
                    e.replicas[replica],
                    slot,
                    command,
                ).unwrap();
                lemma_replica_moves(e, replica, after, out);
            }
        },
    }
}

/// Validity: in every run, a command that a replica holds as decided is a
/// command that a client asked for.
pub proof fn lemma_decided_was_requested<S: StateMachine>(
    states: Seq<Ensemble<S>>,
    events: Seq<Event>,
    acceptors: Seq<NodeId>,
    at: int,
    replica: NodeId,
    slot: usize,
)
    requires
        is_run(states, events, acceptors),
        0 <= at < states.len(),
        states[at].replicas.contains_key(replica),
        states[at].replicas[replica].decisions.contains_key(slot),
    ensures
        states[at].requested.contains(states[at].replicas[replica].decisions[slot]),
{
    lemma_run_invents_nothing(states, events, acceptors, at);
}

/// In every run, nothing is ever invented.
pub proof fn lemma_run_invents_nothing<S: StateMachine>(
    states: Seq<Ensemble<S>>,
    events: Seq<Event>,
    acceptors: Seq<NodeId>,
    at: int,
)
    requires
        is_run(states, events, acceptors),
        0 <= at < states.len(),
    ensures
        nothing_invented(states[at]),
    decreases at,
{
    if at == 0 {
        lemma_initial_invents_nothing(states[0], acceptors);
    } else {
        lemma_run_invents_nothing(states, events, acceptors, at - 1);
        assert(enabled(states[at - 1], events[at - 1]));
        lemma_step_invents_nothing(states[at - 1], events[at - 1]);
    }
}

/// In every run, the commands that count as asked for are those that a
/// client handed to a replica in an earlier event.
pub proof fn lemma_requested_by_a_client<S: StateMachine>(
    states: Seq<Ensemble<S>>,
    events: Seq<Event>,
    acceptors: Seq<NodeId>,
    at: int,
    command: Command,
)
    requires
        is_run(states, events, acceptors),
        0 <= at < states.len(),
        states[at].requested.contains(command),
    ensures
        exists|i: int| 0 <= i < at && asks_for(#[trigger] events[i], command),
    decreases at,
{
    if at > 0 {
        assert(enabled(states[at - 1], events[at - 1]));
        if states[at - 1].requested.contains(command) {
            lemma_requested_by_a_client(states, events, acceptors, at - 1, command);
        } else {
            assert(states[at] == step(states[at - 1], events[at - 1]));
            assert(asks_for(events[at - 1], command));
        }
    }
}

/// Ballot monotonicity: in every run, the promise of an acceptor at a
/// later moment is at least its promise at an earlier one.
pub proof fn lemma_promises_never_lower<S: StateMachine>(
    states: Seq<Ensemble<S>>,
    events: Seq<Event>,
    acceptors: Seq<NodeId>,
    earlier: int,
    later: int,
    acceptor: NodeId,
)
    requires
        is_run(states, events, acceptors),
        0 <= earlier <= later < states.len(),
        states[earlier].acceptors.contains_key(acceptor),
    ensures
        states[later].acceptors.contains_key(acceptor),
        crate::paxos::acceptor::promise_at_most(
            states[earlier].acceptors[acceptor].ballot,
            states[later].acceptors[acceptor].ballot,
        ),
    decreases later - earlier,
{
    if earlier < later {
        lemma_promises_never_lower(states, events, acceptors, earlier, later - 1, acceptor);
        let before = states[later - 1];
        let event = events[later - 1];
        assert(enabled(before, event));
        assert(states[later] == step(before, event));
        match event {
            Event::Ask { acceptor: asked, message, .. } => {
                crate::paxos::acceptor::lemma_promise_never_lowers(
                    before.acceptors[asked],
                    message,
                );
            },
            _ => {},
        }
        crate::paxos::acceptor::lemma_promise_order_is_transitive(
            states[earlier].acceptors[acceptor].ballot,
            before.acceptors[acceptor].ballot,
            states[later].acceptors[acceptor].ballot,
        );
    }
}

/// In every run, every replica is well formed at every moment. So at every
/// moment its proposing is at most a window ahead of its applying, the
/// slots below `slot_out` are all decided, and its state is its initial
/// state after the decided commands of those slots, applied in slot order.
pub proof fn lemma_replicas_stay_wf<S: StateMachine>(
    states: Seq<Ensemble<S>>,
    events: Seq<Event>,
    acceptors: Seq<NodeId>,
    at: int,
    replica: NodeId,
)
    requires
        is_run(states, events, acceptors),
        0 <= at < states.len(),
        states[at].replicas.contains_key(replica),
    ensures
        crate::paxos::replica::replica_wf(states[at].replicas[replica]),
        states[at].replicas[replica].slot_in - states[at].replicas[replica].slot_out
            <= crate::paxos::replica::WINDOW,
        states[at].replicas[replica].state == crate::paxos::replica::run(
            states[at].replicas[replica].initial,
            states[at].replicas[replica].decisions,
            states[at].replicas[replica].slot_out,
        ),
        forall|slot: usize|
            1 <= slot < states[at].replicas[replica].slot_out ==> #[trigger] states[at].replicas[replica].decisions.contains_key(
            slot),
    decreases at,
{
    if at > 0 {
        let before = states[at - 1];
        let event = events[at - 1];
        assert(enabled(before, event));
        assert(states[at] == step(before, event));
        assert(before.replicas.contains_key(replica));
        lemma_replicas_stay_wf(states, events, acceptors, at - 1, replica);
        match event {
            Event::Request { replica: asked, from, command } => {
                lemma_replicas_stay_wf(states, events, acceptors, at - 1, asked);
                crate::paxos::replica::lemma_request_keeps_wf(
                    before.replicas[asked],
                    command,
                    from,
                );
            },
            Event::Decide { replica: told, slot, command, .. } => {
                lemma_replicas_stay_wf(states, events, acceptors, at - 1, told);
                if crate::paxos::replica::decide(before.replicas[told], slot, command) is Ok {
                    crate::paxos::replica::lemma_decide_keeps_wf(
                        before.replicas[told],
                        slot,
                        command,
                    );
                }
            },
            _ => {},
        }
    }
}

} // verus!
