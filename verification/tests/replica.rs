use dc_project::paxos::replica::{Replica, ReplicaError, MAX_SLOT, WINDOW};
use dc_project::paxos::{Command, Destination, Endpoint, Message, Outbound};
use dc_project::{NodeId, ReplicaState, StateMachine};

/// A state machine that records the payloads it applied, in order.
#[derive(Debug, Clone, Default, PartialEq, Eq)]
struct Journal {
    applied: Vec<String>,
}

impl StateMachine for Journal {
    fn step(mut self, command: Command) -> (Self, Result<String, String>) {
        let reply = self.apply(&command);
        (self, reply)
    }

    fn apply(&mut self, command: &Command) -> Result<String, String> {
        self.applied.push(command.op.clone());
        Ok(format!("{}:{}", self.applied.len(), command.op))
    }
}

fn replica_id() -> NodeId {
    NodeId { id: [9u8; 16] }
}

fn cmd(client_id: usize, op_id: usize, op: &str) -> Command {
    Command { client_id, op_id, op: op.to_string() }
}

fn proposes(out: &[Outbound]) -> Vec<(usize, Command)> {
    let mut found = Vec::new();
    for o in out {
        if let (Destination::Leaders, Message::Propose(slot, c)) = (&o.to, &o.message) {
            found.push((*slot, c.clone()));
        }
    }
    found
}

fn responses(out: &[Outbound]) -> Vec<(usize, usize, String, Result<String, String>)> {
    let mut found = Vec::new();
    for o in out {
        if let (Destination::Client(ep), Message::Response(op_id, text, reply)) = (&o.to, &o.message) {
            found.push((ep.token, *op_id, text.clone(), reply.clone()));
        }
    }
    found
}

#[test]
fn fresh_replica_starts_at_slot_one() {
    let replica = Replica::new(replica_id(), ReplicaState::default());
    assert_eq!(replica.slot_in(), 1);
    assert_eq!(replica.slot_out(), 1);
    assert_eq!(replica.pending(), 0);
    assert_eq!(replica.applied(), 0);
    assert!(replica.decision(1).is_none());
    assert!(replica.proposal(1).is_none());
    assert!(replica.client(0).is_none());
    assert_eq!(replica.id(), replica_id());
}

#[test]
fn request_is_proposed_into_the_next_slot() {
    let mut replica = Replica::new(replica_id(), ReplicaState::default());
    let out = replica.on_request(cmd(4, 0, "a"), Endpoint { token: 11 });
    assert_eq!(out.len(), 1);
    assert_eq!(proposes(&out), vec![(1, cmd(4, 0, "a"))]);
    assert_eq!(replica.slot_in(), 2);
    assert_eq!(replica.slot_out(), 1);
    assert_eq!(replica.pending(), 0);
    assert_eq!(replica.proposal(1), Some(&cmd(4, 0, "a")));
    assert_eq!(replica.client(4), Some(Endpoint { token: 11 }));
}

#[test]
fn first_endpoint_of_a_client_wins() {
    let mut replica = Replica::new(replica_id(), ReplicaState::default());
    replica.on_request(cmd(4, 0, "a"), Endpoint { token: 11 });
    replica.on_request(cmd(4, 1, "b"), Endpoint { token: 12 });
    assert_eq!(replica.client(4), Some(Endpoint { token: 11 }));
}

#[test]
fn decision_is_applied_and_answered() {
    let mut replica = Replica::new(replica_id(), Journal::default());
    replica.on_request(cmd(4, 7, "a"), Endpoint { token: 11 });
    let out = replica.on_decision(1, cmd(4, 7, "a")).unwrap();
    assert_eq!(
        responses(&out),
        vec![(11, 7, "Hello there".to_string(), Ok("1:a".to_string()))]
    );
    assert_eq!(out.len(), 1);
    assert_eq!(replica.slot_out(), 2);
    assert_eq!(replica.applied(), 1);
    assert_eq!(replica.state().applied, vec!["a".to_string()]);
    assert!(replica.proposal(1).is_none());
    assert_eq!(replica.decision(1), Some(&cmd(4, 7, "a")));
    assert!(replica.finished(1));
    assert!(!replica.finished(2));
}

#[test]
fn default_state_answers_with_the_payload() {
    let mut replica = Replica::new(replica_id(), ReplicaState::default());
    replica.on_request(cmd(4, 7, "payload"), Endpoint { token: 11 });
    let out = replica.on_decision(1, cmd(4, 7, "payload")).unwrap();
    assert_eq!(
        responses(&out),
        vec![(11, 7, "Hello there".to_string(), Ok("payload".to_string()))]
    );
    assert_eq!(*replica.state(), ReplicaState::default());
}

#[test]
fn unknown_client_gets_no_answer_but_state_moves() {
    let mut replica = Replica::new(replica_id(), Journal::default());
    let out = replica.on_decision(1, cmd(8, 0, "x")).unwrap();
    assert!(out.is_empty());
    assert_eq!(replica.slot_out(), 2);
    assert_eq!(replica.state().applied, vec!["x".to_string()]);
}

#[test]
fn lost_slot_requeues_our_proposal() {
    let mut replica = Replica::new(replica_id(), Journal::default());
    replica.on_request(cmd(4, 0, "ours"), Endpoint { token: 11 });
    let out = replica.on_decision(1, cmd(5, 0, "theirs")).unwrap();
    // the decided command is applied, ours goes back to the queue and is proposed again
    assert_eq!(replica.state().applied, vec!["theirs".to_string()]);
    assert_eq!(proposes(&out), vec![(2, cmd(4, 0, "ours"))]);
    assert_eq!(replica.proposal(2), Some(&cmd(4, 0, "ours")));
    assert!(replica.proposal(1).is_none());
    assert_eq!(replica.slot_in(), 3);
    assert_eq!(replica.slot_out(), 2);
}

#[test]
fn decisions_are_applied_in_slot_order() {
    let mut replica = Replica::new(replica_id(), Journal::default());
    assert!(replica.on_decision(3, cmd(1, 2, "c")).unwrap().is_empty());
    assert!(replica.on_decision(2, cmd(1, 1, "b")).unwrap().is_empty());
    assert_eq!(replica.slot_out(), 1);
    assert!(replica.state().applied.is_empty());
    replica.on_decision(1, cmd(1, 0, "a")).unwrap();
    assert_eq!(replica.slot_out(), 4);
    assert_eq!(
        replica.state().applied,
        vec!["a".to_string(), "b".to_string(), "c".to_string()]
    );
}

#[test]
fn decided_slot_is_skipped_without_consuming_a_request() {
    let mut replica = Replica::new(replica_id(), Journal::default());
    replica.on_decision(2, cmd(1, 1, "b")).unwrap();
    let first = replica.on_request(cmd(4, 0, "x"), Endpoint { token: 1 });
    assert_eq!(proposes(&first), vec![(1, cmd(4, 0, "x"))]);
    let second = replica.on_request(cmd(4, 1, "y"), Endpoint { token: 1 });
    assert_eq!(proposes(&second), vec![(3, cmd(4, 1, "y"))]);
    assert_eq!(replica.slot_in(), 4);
}

#[test]
fn empty_queue_does_not_advance_slot_in() {
    let mut replica = Replica::new(replica_id(), Journal::default());
    replica.on_decision(1, cmd(1, 0, "a")).unwrap();
    assert_eq!(replica.slot_out(), 2);
    assert_eq!(replica.slot_in(), 1);
    let out = replica.on_request(cmd(4, 0, "x"), Endpoint { token: 1 });
    assert_eq!(proposes(&out), vec![(2, cmd(4, 0, "x"))]);
    assert_eq!(replica.slot_in(), 3);
}

#[test]
fn window_bounds_outstanding_proposals() {
    let mut replica = Replica::new(replica_id(), Journal::default());
    let mut sent = 0;
    for i in 0..40 {
        sent += replica.on_request(cmd(1, i, "op"), Endpoint { token: 1 }).len();
        assert!(replica.slot_in() - replica.slot_out() <= WINDOW);
    }
    assert_eq!(WINDOW, 32);
    assert_eq!(sent, 32);
    assert_eq!(replica.slot_in(), 33);
    assert_eq!(replica.pending(), 8);
    // one decision opens the window by one slot
    let out = replica.on_decision(1, cmd(1, 0, "op")).unwrap();
    assert_eq!(proposes(&out), vec![(33, cmd(1, 32, "op"))]);
    assert_eq!(replica.slot_in(), 34);
    assert_eq!(replica.pending(), 7);
}

#[test]
fn requests_are_proposed_oldest_first() {
    let mut replica = Replica::new(replica_id(), Journal::default());
    for i in 0..34 {
        replica.on_request(cmd(1, i, "op"), Endpoint { token: 1 });
    }
    let out = replica.on_decision(1, cmd(1, 0, "op")).unwrap();
    assert_eq!(proposes(&out), vec![(33, cmd(1, 32, "op"))]);
    let out = replica.on_decision(2, cmd(1, 1, "op")).unwrap();
    assert_eq!(proposes(&out), vec![(34, cmd(1, 33, "op"))]);
}

#[test]
fn duplicate_decision() {
    let mut replica = Replica::new(replica_id(), Journal::default());
    replica.on_request(cmd(4, 7, "a"), Endpoint { token: 11 });
    let first = replica.on_decision(1, cmd(4, 7, "a")).unwrap();
    assert_eq!(first.len(), 1);
    let state = replica.state().clone();
    let (slot_in, slot_out, pending) = (replica.slot_in(), replica.slot_out(), replica.pending());
    let second = replica.on_decision(1, cmd(4, 7, "a")).unwrap();
    assert!(second.is_empty());
    assert_eq!(*replica.state(), state);
    assert_eq!(replica.slot_in(), slot_in);
    assert_eq!(replica.slot_out(), slot_out);
    assert_eq!(replica.pending(), pending);
    assert_eq!(replica.slot_out(), 2);
    assert_eq!(replica.decision(1), Some(&cmd(4, 7, "a")));
}

#[test]
fn conflicting_decision_is_refused() {
    let mut replica = Replica::new(replica_id(), Journal::default());
    replica.on_decision(1, cmd(4, 7, "a")).unwrap();
    let err = replica.on_decision(1, cmd(4, 7, "b")).unwrap_err();
    assert_eq!(err, ReplicaError::Conflict);
    assert_eq!(replica.decision(1), Some(&cmd(4, 7, "a")));
    assert_eq!(replica.slot_out(), 2);
    assert_eq!(replica.state().applied, vec!["a".to_string()]);
}

#[test]
fn slot_out_of_range_is_refused() {
    let mut replica = Replica::new(replica_id(), Journal::default());
    assert_eq!(replica.on_decision(0, cmd(1, 0, "a")).unwrap_err(), ReplicaError::InvalidSlot);
    assert_eq!(
        replica.on_decision(MAX_SLOT + 1, cmd(1, 0, "a")).unwrap_err(),
        ReplicaError::InvalidSlot
    );
    assert_eq!(MAX_SLOT, usize::MAX - 33);
    assert!(replica.on_decision(MAX_SLOT, cmd(1, 0, "a")).unwrap().is_empty());
    assert!(replica.decision(0).is_none());
    assert_eq!(replica.slot_out(), 1);
}

#[test]
fn handle_routes_requests_and_decisions_and_drops_the_rest() {
    let mut replica = Replica::new(replica_id(), Journal::default());
    let from = Endpoint { token: 3 };
    let out = replica.handle(from, Message::Request(cmd(4, 0, "a"))).unwrap();
    assert_eq!(proposes(&out), vec![(1, cmd(4, 0, "a"))]);
    let out = replica.handle(from, Message::Decision(1, cmd(4, 0, "a"))).unwrap();
    assert_eq!(responses(&out).len(), 1);
    let out = replica.handle(from, Message::Propose(5, cmd(4, 0, "a"))).unwrap();
    assert!(out.is_empty());
    assert_eq!(replica.slot_in(), 2);
    assert_eq!(replica.slot_out(), 2);
    assert_eq!(
        replica.handle(from, Message::Decision(1, cmd(4, 0, "z"))).unwrap_err(),
        ReplicaError::Conflict
    );
}

#[test]
fn decisions_in_any_order_and_number_give_the_same_state() {
    let log: Vec<Command> = (0..20).map(|i| cmd(1, i, "op")).map(|mut c| {
        c.op = format!("op{}", c.op_id);
        c
    }).collect();
    // one replica learns the log in slot order
    let mut first = Replica::new(replica_id(), Journal::default());
    for (i, command) in log.iter().enumerate() {
        first.on_decision(i + 1, command.clone()).unwrap();
    }
    // another learns it backwards, every second decision twice, and then once more forwards
    let mut second = Replica::new(replica_id(), Journal::default());
    for (i, command) in log.iter().enumerate().rev() {
        assert!(second.on_decision(i + 1, command.clone()).unwrap().is_empty());
        if i % 2 == 0 {
            assert!(second.on_decision(i + 1, command.clone()).unwrap().is_empty());
        }
    }
    for (i, command) in log.iter().enumerate() {
        assert!(second.on_decision(i + 1, command.clone()).unwrap().is_empty());
    }
    assert_eq!(first.slot_out(), 21);
    assert_eq!(second.slot_out(), 21);
    assert_eq!(first.state(), second.state());
    assert_eq!(second.state().applied.len(), 20);
    assert_eq!(second.state().applied[0], "op0");
    assert_eq!(second.state().applied[19], "op19");
    for slot in 1..=20 {
        assert_eq!(first.decision(slot), second.decision(slot));
        assert_eq!(second.decision(slot), Some(&log[slot - 1]));
    }
    assert!(second.decision(21).is_none());
}

#[test]
fn pump_moves_each_request_once() {
    let mut replica = Replica::new(replica_id(), Journal::default());
    replica.on_decision(2, cmd(9, 0, "taken")).unwrap();
    let mut proposed = Vec::new();
    for i in 0..40 {
        proposed.extend(proposes(&replica.on_request(cmd(1, i, "op"), Endpoint { token: 1 })));
    }
    // 32 slots are open, slot 2 among them is decided: 31 requests went out, oldest first
    assert_eq!(proposed.len(), 31);
    assert_eq!(replica.pending(), 9);
    assert_eq!(replica.slot_in(), 33);
    let mut slot = 1;
    for (i, (at, command)) in proposed.iter().enumerate() {
        if slot == 2 {
            slot += 1;
        }
        assert_eq!(*at, slot);
        assert_eq!(*command, cmd(1, i, "op"));
        assert_eq!(replica.proposal(slot), Some(command));
        slot += 1;
    }
    assert!(replica.proposal(2).is_none());
    assert!(replica.proposal(33).is_none());
}

#[test]
fn late_decisions_are_answered_in_slot_order() {
    let mut replica = Replica::new(replica_id(), Journal::default());
    let from = Endpoint { token: 5 };
    let log: Vec<Command> = (0..10)
        .map(|i| Command { client_id: 0, op_id: i, op: format!("{}", i + 1) })
        .collect();
    for command in &log {
        replica.on_request(command.clone(), from);
    }
    // the decisions of the slots 2 to 10 come first, backwards: nothing is applied yet
    for slot in (2..=10).rev() {
        assert!(replica.on_decision(slot, log[slot - 1].clone()).unwrap().is_empty());
        assert!(replica.on_decision(slot, log[slot - 1].clone()).unwrap().is_empty());
    }
    assert_eq!(replica.slot_out(), 1);
    // with slot 1 everything is applied, and answered in slot order
    let out = replica.on_decision(1, log[0].clone()).unwrap();
    let expected: Vec<(usize, usize, String, Result<String, String>)> = (0..10)
        .map(|i| (5, i, "Hello there".to_string(), Ok(format!("{}:{}", i + 1, i + 1))))
        .collect();
    assert_eq!(responses(&out), expected);
    assert_eq!(out.len(), 10);
    assert_eq!(replica.slot_out(), 11);
    assert_eq!(replica.pending(), 0);
    for slot in 1..=10 {
        assert!(replica.proposal(slot).is_none());
        assert_eq!(replica.decision(slot), Some(&log[slot - 1]));
    }
    assert!(replica.decision(11).is_none());
}
