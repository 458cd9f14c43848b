use dc_project::paxos::dir::{
    answer_identify, listen_port, ACCEPTOR_PORT, CLIENT_PORT, COMMANDER_PORT, IDENTIFY_PORT,
    LEADER_PORT, REPLICA_PORT, SCOUT_PORT,
};
use dc_project::paxos::{Ballot, Command, Message, Proposal};
use dc_project::{Address, Entry, Identity, IpAddress, NodeId, ReplicaState, StateMachine, LOOPBACK};
use std::cmp::Ordering;

fn node(tag: u8) -> NodeId {
    let mut id = [0u8; 16];
    id[15] = tag;
    NodeId { id }
}

fn cmd(client_id: usize, op_id: usize, op: &str) -> Command {
    Command { client_id, op_id, op: op.to_string() }
}

#[test]
fn node_ids_are_ordered_lexicographically() {
    let mut low = [0u8; 16];
    let mut high = [0u8; 16];
    low[15] = 255;
    high[0] = 1;
    let (low, high) = (NodeId { id: low }, NodeId { id: high });
    assert!(low < high);
    assert!(high > low);
    assert!(low <= low);
    assert_eq!(low.compare(&high), Ordering::Less);
    assert_eq!(high.compare(&low), Ordering::Greater);
    assert_eq!(low.compare(&low), Ordering::Equal);
    assert_eq!(low.partial_cmp(&high), Some(Ordering::Less));
    assert_eq!(low.cmp(&high), Ordering::Less);
    assert_eq!(low, low);
    assert_ne!(low, high);
}

#[test]
fn fresh_node_ids_are_version_four_uuids() {
    let a = NodeId::new();
    let b = NodeId::new();
    assert_eq!(a.id[6] >> 4, 4);
    assert_eq!(a.id[8] >> 6, 2);
    assert_eq!(b.id[6] >> 4, 4);
    assert_eq!(b.id[8] >> 6, 2);
    assert_ne!(a, b);
}

#[test]
fn ballots_compare_by_number_then_leader() {
    let a = Ballot::new(1, node(9));
    let b = Ballot::new(2, node(1));
    let c = Ballot::new(2, node(3));
    assert_eq!(a.num, 1);
    assert_eq!(a.leader_id, node(9));
    assert!(a < b);
    assert!(b < c);
    assert!(a < c);
    assert!(c > b);
    assert_eq!(b.compare(&c), Ordering::Less);
    assert_eq!(c.compare(&b), Ordering::Greater);
    assert_eq!(c.compare(&c), Ordering::Equal);
    assert_eq!(b.cmp(&c), Ordering::Less);
    assert_eq!(b, Ballot { num: 2, leader_id: node(1) });
    assert_ne!(b, c);
}

#[test]
fn commands_are_equal_when_all_fields_match() {
    assert_eq!(cmd(1, 2, "x"), cmd(1, 2, "x"));
    assert_ne!(cmd(1, 2, "x"), cmd(1, 2, "y"));
    assert_ne!(cmd(1, 2, "x"), cmd(1, 3, "x"));
    assert_ne!(cmd(1, 2, "x"), cmd(2, 2, "x"));
    assert_eq!(cmd(1, 2, "x").clone(), cmd(1, 2, "x"));
}

#[test]
fn proposals_compare_by_slot_and_ballot_only() {
    let low = Ballot::new(1, node(1));
    let high = Ballot::new(2, node(1));
    let a = Proposal { slot: 1, ballot: low, command: cmd(0, 0, "a") };
    let b = Proposal { slot: 1, ballot: low, command: cmd(0, 0, "b") };
    let c = Proposal { slot: 1, ballot: high, command: cmd(0, 0, "a") };
    let d = Proposal { slot: 2, ballot: high, command: cmd(0, 0, "a") };
    assert!(a == b);
    assert!(a != c);
    assert!(c != d);
    assert_eq!(a.partial_cmp(&c), Some(Ordering::Less));
    assert_eq!(c.partial_cmp(&a), Some(Ordering::Greater));
    assert_eq!(a.partial_cmp(&b), Some(Ordering::Equal));
    assert_eq!(a.partial_cmp(&d), None);
    assert!(a < c);
    assert!(!(a < d) && !(d < a));
    assert_eq!(a.cmp(&c), Ordering::Less);
    assert_eq!(c.cmp(&a), Ordering::Greater);
    assert_eq!(a.cmp(&d), Ordering::Equal);
    let copy = c.clone();
    assert_eq!((copy.slot, copy.ballot, copy.command), (1, high, cmd(0, 0, "a")));
}

#[test]
fn triv_leaves_the_state_and_answers_with_its_text() {
    let state = ReplicaState::default();
    let f = ReplicaState::triv("done".to_string());
    let (after, reply) = f(&state);
    assert_eq!(after, state);
    assert_eq!(reply, Ok("done".to_string()));
    let mut state = ReplicaState::default();
    let reply = state.apply(&cmd(1, 2, "op"));
    assert_eq!(reply, Ok("op".to_string()));
    assert_eq!(state, ReplicaState::default());
}

#[test]
fn ports_are_assigned_per_kind() {
    assert_eq!(
        (LEADER_PORT, SCOUT_PORT, COMMANDER_PORT, REPLICA_PORT, ACCEPTOR_PORT, CLIENT_PORT, IDENTIFY_PORT),
        (4000, 4500, 5000, 6000, 8000, 9000, 3000)
    );
    assert_eq!(listen_port(Identity::Replica, 0), Some(6000));
    assert_eq!(listen_port(Identity::Replica, 2), Some(6002));
    assert_eq!(listen_port(Identity::Leader, 1), Some(4001));
    assert_eq!(listen_port(Identity::Acceptor, 3), Some(8003));
    assert_eq!(listen_port(Identity::Acceptor, 57535), Some(65535));
    assert_eq!(listen_port(Identity::Acceptor, 57536), None);
    assert_eq!(listen_port(Identity::Leader, usize::MAX), None);
    assert_eq!(listen_port(Identity::Server, 0), None);
}

#[test]
fn identify_is_answered_once() {
    let own = Entry::new(
        node(1),
        Identity::Acceptor,
        Address { ip: IpAddress::V4(LOOPBACK), port: 8000 },
    );
    assert_eq!(own.id, node(1));
    assert_eq!(own.kind, Identity::Acceptor);
    assert_eq!(own.addr.port, 8000);
    assert_eq!(LOOPBACK, [127, 0, 0, 1]);
    match answer_identify(own, true) {
        Some(Message::Identify(entry, reply)) => {
            assert_eq!(entry, own);
            assert!(!reply);
        }
        other => panic!("unexpected answer {:?}", other),
    }
    assert!(answer_identify(own, false).is_none());
}

#[test]
fn kinds_are_written_by_name() {
    assert_eq!(Identity::Acceptor.name(), "Acceptor");
    assert_eq!(Identity::Leader.name(), "Leader");
    assert_eq!(Identity::Replica.name(), "Replica");
    assert_eq!(Identity::Server.name(), "Server");
}
