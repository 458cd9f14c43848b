use dc_project::paxos::leader::{Commander, CommanderOutcome, Leader, Scout, ScoutOutcome};
use dc_project::paxos::{quorum, Ballot, Command, Destination, Message, Outbound, Proposal};
use dc_project::NodeId;

fn node(tag: u8) -> NodeId {
    let mut id = [0u8; 16];
    id[15] = tag;
    NodeId { id }
}

fn cmd(client_id: usize, op_id: usize, op: &str) -> Command {
    Command { client_id, op_id, op: op.to_string() }
}

fn prop(slot: usize, ballot: Ballot, op: &str) -> Proposal {
    Proposal { slot, ballot, command: cmd(0, slot, op) }
}

fn acceptors() -> Vec<NodeId> {
    vec![node(1), node(2), node(3)]
}

fn phase2a(out: &[Outbound]) -> Vec<(NodeId, usize, Ballot, Command)> {
    let mut found = Vec::new();
    for o in out {
        if let (Destination::Acceptors, Message::Phase2a(leader, p)) = (&o.to, &o.message) {
            found.push((*leader, p.slot, p.ballot, p.command.clone()));
        }
    }
    found
}

fn phase1a(out: &[Outbound]) -> Vec<(NodeId, NodeId, Ballot)> {
    let mut found = Vec::new();
    for o in out {
        if let (Destination::Node(to), Message::Phase1a(named, ballot)) = (&o.to, &o.message) {
            found.push((*to, *named, *ballot));
        }
    }
    found
}

#[test]
fn quorum_is_a_strict_majority() {
    assert_eq!(quorum(0), 1);
    assert_eq!(quorum(1), 1);
    assert_eq!(quorum(2), 2);
    assert_eq!(quorum(3), 2);
    assert_eq!(quorum(4), 3);
    assert_eq!(quorum(5), 3);
}

#[test]
fn scout_asks_every_acceptor_once() {
    let ballot = Ballot::new(0, node(9));
    let (scout, out) = Scout::new(node(9), ballot, &vec![node(1), node(2), node(1), node(3)]);
    assert_eq!(scout.ballot(), ballot);
    assert_eq!(out.len(), 3);
    assert_eq!(
        phase1a(&out),
        vec![(node(1), node(1), ballot), (node(2), node(2), ballot), (node(3), node(3), ballot)]
    );
}

#[test]
fn scout_is_adopted_by_a_quorum() {
    let ballot = Ballot::new(1, node(9));
    let old = Ballot::new(0, node(4));
    let (mut scout, _) = Scout::new(node(9), ballot, &acceptors());
    let first = scout.on_phase1b(node(1), ballot, vec![prop(1, old, "a")]);
    assert!(matches!(first, ScoutOutcome::Waiting));
    // the same acceptor again does not count twice
    let again = scout.on_phase1b(node(1), ballot, vec![prop(1, old, "a")]);
    assert!(matches!(again, ScoutOutcome::Waiting));
    match scout.on_phase1b(node(3), ballot, vec![prop(1, old, "a"), prop(2, old, "b")]) {
        ScoutOutcome::Adopted(b, pvalues) => {
            assert_eq!(b, ballot);
            assert_eq!(pvalues.len(), 2);
            assert_eq!((pvalues[0].slot, pvalues[0].ballot), (1, old));
            assert_eq!((pvalues[1].slot, pvalues[1].ballot), (2, old));
            assert_eq!(pvalues[1].command, cmd(0, 2, "b"));
        }
        other => panic!("unexpected outcome {:?}", other),
    }
}

#[test]
fn scout_is_preempted_by_a_higher_ballot_and_ignores_a_lower_one() {
    let ballot = Ballot::new(1, node(9));
    let (mut scout, _) = Scout::new(node(9), ballot, &acceptors());
    let stale = scout.on_phase1b(node(1), Ballot::new(0, node(9)), vec![]);
    assert!(matches!(stale, ScoutOutcome::Waiting));
    let tie_break = Ballot::new(1, node(10));
    match scout.on_phase1b(node(2), tie_break, vec![]) {
        ScoutOutcome::Preempted(b) => assert_eq!(b, tie_break),
        other => panic!("unexpected outcome {:?}", other),
    }
}

#[test]
fn commander_decides_with_a_quorum() {
    let ballot = Ballot::new(1, node(9));
    let (mut commander, request) = Commander::new(node(9), prop(5, ballot, "x"), &acceptors());
    assert_eq!(commander.slot(), 5);
    assert_eq!(commander.ballot(), ballot);
    assert_eq!(phase2a(&[request]), vec![(node(9), 5, ballot, cmd(0, 5, "x"))]);
    assert!(matches!(commander.on_phase2b(node(2), ballot), CommanderOutcome::Waiting));
    assert!(matches!(commander.on_phase2b(node(2), ballot), CommanderOutcome::Waiting));
    // an acceptor that was never asked does not count
    assert!(matches!(commander.on_phase2b(node(8), ballot), CommanderOutcome::Waiting));
    match commander.on_phase2b(node(1), ballot) {
        CommanderOutcome::Decided(slot, command) => {
            assert_eq!(slot, 5);
            assert_eq!(command, cmd(0, 5, "x"));
        }
        other => panic!("unexpected outcome {:?}", other),
    }
}

#[test]
fn commander_is_preempted_by_a_higher_ballot_and_ignores_a_lower_one() {
    let ballot = Ballot::new(1, node(9));
    let (mut commander, _) = Commander::new(node(9), prop(5, ballot, "x"), &acceptors());
    assert!(matches!(
        commander.on_phase2b(node(1), Ballot::new(0, node(12))),
        CommanderOutcome::Waiting
    ));
    let higher = Ballot::new(2, node(1));
    match commander.on_phase2b(node(1), higher) {
        CommanderOutcome::Preempted(b) => assert_eq!(b, higher),
        other => panic!("unexpected outcome {:?}", other),
    }
}

#[test]
fn leader_starts_inactive_with_ballot_zero_and_a_scout() {
    let (leader, out) = Leader::new(node(9), &acceptors());
    assert_eq!(leader.id(), node(9));
    assert!(!leader.is_active());
    assert_eq!(leader.ballot(), Ballot::new(0, node(9)));
    assert!(leader.is_scouting());
    assert_eq!(leader.commanders(), 0);
    assert_eq!(phase1a(&out).len(), 3);
    assert_eq!(phase1a(&out)[0], (node(1), node(1), Ballot::new(0, node(9))));
}

#[test]
fn inactive_leader_notes_a_proposal_without_a_commander() {
    let (mut leader, _) = Leader::new(node(9), &acceptors());
    let out = leader.on_propose(1, cmd(0, 0, "a"));
    assert!(out.is_empty());
    assert_eq!(leader.proposal(1), Some(&cmd(0, 0, "a")));
    // a second command for the slot is ignored
    assert!(leader.on_propose(1, cmd(0, 1, "b")).is_empty());
    assert_eq!(leader.proposal(1), Some(&cmd(0, 0, "a")));
    assert_eq!(leader.commanders(), 0);
}

#[test]
fn adoption_merges_pmax_and_commands_every_slot() {
    let (mut leader, _) = Leader::new(node(9), &acceptors());
    leader.on_propose(1, cmd(0, 0, "mine-1"));
    leader.on_propose(3, cmd(0, 0, "mine-3"));
    let low = Ballot::new(0, node(4));
    let high = Ballot::new(0, node(5));
    let ballot = leader.ballot();
    let out = leader.on_adopted(
        ballot,
        vec![prop(1, low, "low"), prop(1, high, "high"), prop(2, low, "two")],
    );
    assert!(leader.is_active());
    assert_eq!(leader.proposal(1), Some(&cmd(0, 1, "high")));
    assert_eq!(leader.proposal(2), Some(&cmd(0, 2, "two")));
    assert_eq!(leader.proposal(3), Some(&cmd(0, 0, "mine-3")));
    assert_eq!(
        phase2a(&out),
        vec![
            (node(9), 1, ballot, cmd(0, 1, "high")),
            (node(9), 3, ballot, cmd(0, 0, "mine-3")),
            (node(9), 2, ballot, cmd(0, 2, "two")),
        ]
    );
    assert_eq!(out.len(), 3);
    assert_eq!(leader.commanders(), 3);
}

#[test]
fn active_leader_commands_a_new_proposal_at_once() {
    let (mut leader, _) = Leader::new(node(9), &acceptors());
    let ballot = leader.ballot();
    leader.on_phase1b(node(1), ballot, vec![]);
    assert!(!leader.is_active());
    let out = leader.on_phase1b(node(2), ballot, vec![]);
    assert!(out.is_empty());
    assert!(leader.is_active());
    assert!(!leader.is_scouting());
    let out = leader.on_propose(4, cmd(2, 0, "d"));
    assert_eq!(phase2a(&out), vec![(node(9), 4, ballot, cmd(2, 0, "d"))]);
    assert_eq!(leader.commanders(), 1);
}

#[test]
fn preemption_rebases_the_ballot_and_starts_a_scout() {
    let (mut leader, _) = Leader::new(node(9), &acceptors());
    let ballot = leader.ballot();
    leader.on_phase1b(node(1), ballot, vec![]);
    leader.on_phase1b(node(2), ballot, vec![]);
    assert!(leader.is_active());
    let higher = Ballot::new(6, node(12));
    let out = leader.on_preempted(higher);
    assert!(!leader.is_active());
    assert_eq!(leader.ballot(), Ballot::new(7, node(9)));
    assert!(leader.is_scouting());
    assert_eq!(phase1a(&out).len(), 3);
    assert_eq!(phase1a(&out)[2], (node(3), node(3), Ballot::new(7, node(9))));
    // a report that is not above the current ballot is stale
    let out = leader.on_preempted(Ballot::new(6, node(12)));
    assert!(out.is_empty());
    assert_eq!(leader.ballot(), Ballot::new(7, node(9)));
}

#[test]
fn preemption_at_the_last_ballot_number_stops_the_leader() {
    let (mut leader, _) = Leader::new(node(9), &acceptors());
    let out = leader.on_preempted(Ballot::new(usize::MAX, node(1)));
    assert!(out.is_empty());
    assert!(!leader.is_active());
    assert!(!leader.is_scouting());
    assert_eq!(leader.ballot(), Ballot::new(0, node(9)));
}

#[test]
fn scout_preemption_reaches_the_leader() {
    let (mut leader, _) = Leader::new(node(9), &acceptors());
    let higher = Ballot::new(0, node(10));
    let out = leader.on_phase1b(node(1), higher, vec![]);
    assert_eq!(leader.ballot(), Ballot::new(1, node(9)));
    assert_eq!(phase1a(&out).len(), 3);
    assert!(leader.is_scouting());
}

#[test]
fn commander_quorum_announces_the_decision() {
    let (mut leader, _) = Leader::new(node(9), &acceptors());
    let ballot = leader.ballot();
    leader.on_phase1b(node(1), ballot, vec![]);
    leader.on_phase1b(node(2), ballot, vec![]);
    leader.on_propose(1, cmd(0, 0, "a"));
    leader.on_propose(2, cmd(0, 1, "b"));
    assert_eq!(leader.commanders(), 2);
    assert!(leader.on_phase2b(2, ballot, node(1), ballot).is_empty());
    // answers for a commander that does not run are dropped
    assert!(leader.on_phase2b(7, ballot, node(1), ballot).is_empty());
    let out = leader.on_phase2b(2, ballot, node(3), ballot);
    assert_eq!(out.len(), 1);
    match (&out[0].to, &out[0].message) {
        (Destination::Replicas, Message::Decision(slot, command)) => {
            assert_eq!(*slot, 2);
            assert_eq!(*command, cmd(0, 1, "b"));
        }
        other => panic!("unexpected message {:?}", other),
    }
    assert_eq!(leader.commanders(), 1);
    // the commander is gone: further answers are dropped
    assert!(leader.on_phase2b(2, ballot, node(2), ballot).is_empty());
}

#[test]
fn commander_preemption_reaches_the_leader() {
    let (mut leader, _) = Leader::new(node(9), &acceptors());
    let ballot = leader.ballot();
    leader.on_phase1b(node(1), ballot, vec![]);
    leader.on_phase1b(node(2), ballot, vec![]);
    leader.on_propose(1, cmd(0, 0, "a"));
    let higher = Ballot::new(3, node(1));
    let out = leader.on_phase2b(1, ballot, node(1), higher);
    assert!(!leader.is_active());
    assert_eq!(leader.ballot(), Ballot::new(4, node(9)));
    assert_eq!(leader.commanders(), 0);
    assert_eq!(phase1a(&out).len(), 3);
}

#[test]
fn leader_handle_routes_proposals_and_first_phase_answers() {
    let (mut leader, _) = Leader::new(node(9), &acceptors());
    let ballot = leader.ballot();
    assert!(leader.handle(Message::Propose(1, cmd(0, 0, "a"))).is_empty());
    assert!(leader.handle(Message::Phase1b(node(9), node(1), ballot, vec![])).is_empty());
    let out = leader.handle(Message::Phase1b(node(9), node(2), ballot, vec![]));
    assert_eq!(phase2a(&out), vec![(node(9), 1, ballot, cmd(0, 0, "a"))]);
    assert!(leader.handle(Message::Decision(1, cmd(0, 0, "a"))).is_empty());
    assert!(leader.handle(Message::Phase2b(node(9), node(1), ballot)).is_empty());
    assert_eq!(leader.commanders(), 1);
}
