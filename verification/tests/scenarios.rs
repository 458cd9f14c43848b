use dc_project::paxos::acceptor::Acceptor;
use dc_project::paxos::leader::Leader;
use dc_project::paxos::replica::Replica;
use dc_project::paxos::{Ballot, Command, Destination, Endpoint, Message, Outbound};
use dc_project::{NodeId, StateMachine};
use std::collections::VecDeque;

/// A state machine that records the payloads it applied, in order.
#[derive(Debug, Clone, Default, PartialEq, Eq)]
struct Journal {
    applied: Vec<String>,
}

impl StateMachine for Journal {
    fn step(mut self, command: Command) -> (Self, Result<String, String>) {
        let reply = self.apply(&command);
        (self, reply)
    }

    fn apply(&mut self, command: &Command) -> Result<String, String> {
        self.applied.push(command.op.clone());
        Ok(command.op.clone())
    }
}

fn node(kind: u8, index: usize) -> NodeId {
    let mut id = [0u8; 16];
    id[0] = kind;
    id[15] = index as u8;
    NodeId { id }
}

fn cmd(op_id: usize) -> Command {
    Command { client_id: 0, op_id, op: (op_id + 1).to_string() }
}

/// One message in flight.
#[derive(Debug)]
enum Packet {
    /// To an acceptor, from a leader; a second-phase request carries the
    /// slot and ballot of the commander that sent it.
    ToAcceptor { acceptor: usize, leader: usize, commander: Option<(usize, Ballot)>, message: Message },
    /// To a leader, with the commander that a second-phase answer is for.
    ToLeader { leader: usize, commander: Option<(usize, Ballot)>, message: Message },
    ToReplica { replica: usize, message: Message },
}

struct Ensemble {
    acceptors: Vec<Acceptor>,
    leaders: Vec<Leader>,
    replicas: Vec<Replica<Journal>>,
    wire: VecDeque<Packet>,
    answered: Vec<usize>,
    sent: usize,
}

const CLIENT: Endpoint = Endpoint { token: 77 };

impl Ensemble {
    fn new(n_acceptors: usize, n_leaders: usize, n_replicas: usize) -> Ensemble {
        let ids: Vec<NodeId> = (0..n_acceptors).map(|i| node(1, i)).collect();
        let mut ensemble = Ensemble {
            acceptors: ids.iter().map(|id| Acceptor::new(*id)).collect(),
            leaders: Vec::new(),
            replicas: (0..n_replicas).map(|i| Replica::new(node(3, i), Journal::default())).collect(),
            wire: VecDeque::new(),
            answered: Vec::new(),
            sent: 0,
        };
        for l in 0..n_leaders {
            let (leader, out) = Leader::new(node(2, l), &ids);
            ensemble.leaders.push(leader);
            ensemble.from_leader(l, out);
        }
        ensemble
    }

    fn from_leader(&mut self, leader: usize, out: Vec<Outbound>) {
        for o in out {
            match (o.to, o.message) {
                (Destination::Node(id), message) => {
                    let acceptor = self.acceptors.iter().position(|a| a.id == id).unwrap();
                    self.wire.push_back(Packet::ToAcceptor { acceptor, leader, commander: None, message });
                }
                (Destination::Acceptors, Message::Phase2a(from, proposal)) => {
                    for acceptor in 0..self.acceptors.len() {
                        self.wire.push_back(Packet::ToAcceptor {
                            acceptor,
                            leader,
                            commander: Some((proposal.slot, proposal.ballot)),
                            message: Message::Phase2a(from, proposal.clone()),
                        });
                    }
                }
                (Destination::Replicas, Message::Decision(slot, command)) => {
                    for replica in 0..self.replicas.len() {
                        self.wire.push_back(Packet::ToReplica {
                            replica,
                            message: Message::Decision(slot, command.clone()),
                        });
                    }
                }
                other => panic!("a leader sent {:?}", other),
            }
        }
    }

    fn from_replica(&mut self, out: Vec<Outbound>) {
        for o in out {
            match (o.to, o.message) {
                (Destination::Leaders, Message::Propose(slot, command)) => {
                    for leader in 0..self.leaders.len() {
                        self.wire.push_back(Packet::ToLeader {
                            leader,
                            commander: None,
                            message: Message::Propose(slot, command.clone()),
                        });
                    }
                }
                (Destination::Client(to), Message::Response(op_id, _, reply)) => {
                    assert_eq!(to, CLIENT);
                    assert_eq!(reply, Ok((op_id + 1).to_string()));
                    self.answered.push(op_id);
                }
                other => panic!("a replica sent {:?}", other),
            }
        }
    }

    fn request(&mut self, replica: usize, command: Command) {
        let out = self.replicas[replica].handle(CLIENT, Message::Request(command)).unwrap();
        self.from_replica(out);
    }

    fn deliver(&mut self, packet: Packet) {
        match packet {
            Packet::ToAcceptor { acceptor, leader, commander, message } => {
                if let Some(reply) = self.acceptors[acceptor].handle(message) {
                    self.wire.push_back(Packet::ToLeader { leader, commander, message: reply });
                }
            }
            Packet::ToLeader { leader, commander, message } => {
                let out = match (commander, message) {
                    (Some((slot, ballot)), Message::Phase2b(_, acceptor, reported)) => {
                        self.leaders[leader].on_phase2b(slot, ballot, acceptor, reported)
                    }
                    (_, message) => self.leaders[leader].handle(message),
                };
                self.from_leader(leader, out);
            }
            Packet::ToReplica { replica, message } => {
                let out = self.replicas[replica]
                    .handle(Endpoint { token: 0 }, message)
                    .expect("no slot is decided twice with different commands");
                self.from_replica(out);
            }
        }
    }

    /// Delivers what is in flight, in order, except what `lose` picks.
    fn run(&mut self, mut lose: impl FnMut(usize, &Packet) -> bool) {
        while let Some(packet) = self.wire.pop_front() {
            self.sent += 1;
            assert!(self.sent < 100_000, "the ensemble does not settle");
            if !lose(self.sent, &packet) {
                self.deliver(packet);
            }
        }
    }

    fn assert_agreement(&self, slots: usize) {
        for replica in &self.replicas {
            assert_eq!(replica.slot_out(), slots + 1);
            for slot in 1..=slots {
                assert_eq!(replica.decision(slot), self.replicas[0].decision(slot));
                assert!(replica.decision(slot).is_some());
            }
            assert_eq!(replica.state(), self.replicas[0].state());
        }
    }
}

fn sorted(mut list: Vec<String>) -> Vec<String> {
    list.sort();
    list
}

#[test]
fn single_client_no_contention() {
    let mut ensemble = Ensemble::new(3, 1, 3);
    ensemble.run(|_, _| false);
    for i in 0..10 {
        ensemble.request(0, cmd(i));
        ensemble.run(|_, _| false);
    }
    ensemble.assert_agreement(10);
    let expected: Vec<String> = (1..=10).map(|i| i.to_string()).collect();
    for replica in &ensemble.replicas {
        assert_eq!(replica.state().applied, expected);
    }
    assert_eq!(ensemble.answered, (0..10).collect::<Vec<usize>>());
    assert_eq!(ensemble.replicas[0].pending(), 0);
}

#[test]
fn dueling_leaders() {
    let mut ensemble = Ensemble::new(3, 2, 1);
    assert_eq!(ensemble.leaders[0].ballot(), Ballot::new(0, node(2, 0)));
    assert_eq!(ensemble.leaders[1].ballot(), Ballot::new(0, node(2, 1)));
    // the acceptors hear the higher ballot first, so the lower one is preempted
    ensemble.wire.rotate_left(3);
    for i in 0..5 {
        ensemble.request(0, cmd(i));
    }
    ensemble.run(|_, _| false);
    assert_eq!(ensemble.leaders[0].ballot(), Ballot::new(1, node(2, 0)));
    assert_eq!(ensemble.leaders[1].ballot(), Ballot::new(0, node(2, 1)));
    assert!(ensemble.leaders[0].is_active());
    assert!(ensemble.leaders[1].is_active());
    ensemble.assert_agreement(5);
    let expected: Vec<String> = (1..=5).map(|i| i.to_string()).collect();
    assert_eq!(sorted(ensemble.replicas[0].state().applied.clone()), expected);
    assert_eq!(sorted(ensemble.answered.iter().map(|i| (i + 1).to_string()).collect()), expected);
}

#[test]
fn lost_phase2a() {
    let mut ensemble = Ensemble::new(3, 2, 2);
    ensemble.run(|_, _| false);
    for i in 0..4 {
        ensemble.request(0, cmd(i));
    }
    // everything the first leader's commanders ask is lost
    ensemble.run(|_, packet| {
        matches!(packet, Packet::ToAcceptor { leader: 0, message: Message::Phase2a(..), .. })
    });
    ensemble.assert_agreement(4);
    assert_eq!(ensemble.leaders[0].commanders(), 4);
    // once the filter is lifted, the first leader decides later slots as well
    for i in 4..6 {
        ensemble.request(1, cmd(i));
    }
    ensemble.run(|_, _| false);
    ensemble.assert_agreement(6);
}

#[test]
fn lossy_proposals() {
    let mut ensemble = Ensemble::new(3, 3, 2);
    ensemble.run(|_, _| false);
    let mut proposals = 0;
    for i in 0..12 {
        ensemble.request(0, cmd(i));
        // three of every ten proposals are lost, never all three copies of one
        ensemble.run(|_, packet| {
            if matches!(packet, Packet::ToLeader { message: Message::Propose(..), .. }) {
                proposals += 1;
                return [1, 5, 9].contains(&(proposals % 10));
            }
            false
        });
    }
    ensemble.assert_agreement(12);
    let expected: Vec<String> = sorted((1..=12).map(|i| i.to_string()).collect());
    assert_eq!(sorted(ensemble.replicas[0].state().applied.clone()), expected);
    assert_eq!(ensemble.replicas[0].pending(), 0);
    assert_eq!(ensemble.answered.len(), 12);
}

#[test]
fn replica_lag() {
    let mut ensemble = Ensemble::new(3, 1, 3);
    ensemble.run(|_, _| false);
    let mut held = Vec::new();
    for i in 0..20 {
        ensemble.request(0, cmd(i));
        // the third replica hears nothing for now
        while let Some(packet) = ensemble.wire.pop_front() {
            if matches!(packet, Packet::ToReplica { replica: 2, .. }) {
                held.push(packet);
            } else {
                ensemble.deliver(packet);
            }
        }
    }
    assert_eq!(ensemble.replicas[0].slot_out(), 21);
    assert_eq!(ensemble.replicas[1].slot_out(), 21);
    assert_eq!(ensemble.replicas[2].slot_out(), 1);
    assert_eq!(held.len(), 20);
    // the decisions reach it late and out of order
    held.reverse();
    for packet in held {
        ensemble.deliver(packet);
    }
    ensemble.assert_agreement(20);
    assert_eq!(ensemble.replicas[2].state(), ensemble.replicas[0].state());
    assert_eq!(ensemble.replicas[2].state().applied.len(), 20);
}

#[test]
fn decided_commands_were_requested() {
    let mut ensemble = Ensemble::new(3, 2, 2);
    ensemble.wire.rotate_left(3);
    let requested: Vec<Command> = (0..6).map(cmd).collect();
    for (i, command) in requested.iter().enumerate() {
        ensemble.request(i % 2, command.clone());
    }
    ensemble.run(|_, _| false);
    for replica in &ensemble.replicas {
        let mut slot = 1;
        while let Some(decided) = replica.decision(slot) {
            assert!(requested.contains(decided));
            slot += 1;
        }
        assert_eq!(slot, replica.slot_out());
        assert!(slot > 6);
    }
    assert_eq!(ensemble.replicas[0].state(), ensemble.replicas[1].state());
}

#[test]
fn late_request_under_a_lower_ballot() {
    // The first leader is promised its ballot by two acceptors; the third has promised the
    // second leader's higher ballot. When the first leader's request reaches the third
    // acceptor, the answer carries the higher ballot, the commander gives up, and nothing is
    // decided that no quorum has accepted.
    let mut ensemble = Ensemble::new(3, 2, 2);
    let (first, second) = (cmd(0), cmd(1));
    let mut held = Vec::new();
    while let Some(packet) = ensemble.wire.pop_front() {
        match packet {
            Packet::ToAcceptor { acceptor: 2, leader: 0, .. } => {}
            Packet::ToAcceptor { acceptor: 0, leader: 1, .. } => held.push(packet),
            Packet::ToAcceptor { acceptor: 1, leader: 1, .. } => held.push(packet),
            packet => ensemble.deliver(packet),
        }
    }
    assert!(ensemble.leaders[0].is_active());
    assert!(!ensemble.leaders[1].is_active());
    assert_eq!(ensemble.acceptors[2].ballot, Some(Ballot::new(0, node(2, 1))));
    // The first replica's proposal reaches the first leader only. Its request is accepted by
    // the first acceptor, lost on the way to the second, and refused by the third.
    ensemble.request(0, first.clone());
    while let Some(packet) = ensemble.wire.pop_front() {
        match packet {
            Packet::ToLeader { leader: 1, message: Message::Propose(..), .. } => {}
            Packet::ToAcceptor { acceptor: 1, message: Message::Phase2a(..), .. } => {}
            Packet::ToAcceptor { message: Message::Phase1a(..), .. } => held.push(packet),
            packet => ensemble.deliver(packet),
        }
    }
    assert_eq!(ensemble.acceptors[0].accepted.len(), 1);
    assert!(ensemble.acceptors[2].accepted.is_empty());
    assert!(!ensemble.leaders[0].is_active());
    assert_eq!(ensemble.leaders[0].ballot(), Ballot::new(1, node(2, 0)));
    assert_eq!(ensemble.replicas[0].decision(1), None);
    assert_eq!(ensemble.replicas[1].decision(1), None);
    // The second leader's scout now gets through, and the second replica proposes another
    // command to it for the same slot.
    let late: Vec<Packet> = held
        .into_iter()
        .filter(|p| matches!(p, Packet::ToAcceptor { leader: 1, .. }))
        .collect();
    for packet in late {
        ensemble.deliver(packet);
    }
    ensemble.run(|_, _| false);
    assert!(ensemble.leaders[1].is_active());
    ensemble.request(1, second.clone());
    ensemble.run(|_, packet| {
        matches!(packet, Packet::ToLeader { leader: 0, message: Message::Propose(..), .. })
    });
    // What the first acceptor accepted under the lower ballot was reported to the second
    // leader's scout, so the first command keeps the slot on both replicas.
    for replica in &ensemble.replicas {
        assert_eq!(replica.decision(1), Some(&first));
    }
    assert_eq!(ensemble.replicas[0].decision(2), ensemble.replicas[1].decision(2));
}
