use dc_project::paxos::acceptor::{latest_of, Acceptor};
use dc_project::paxos::leader::{Commander, CommanderOutcome};
use dc_project::paxos::{Ballot, Command, Message, Proposal};
use dc_project::NodeId;

fn node(tag: u8) -> NodeId {
    let mut id = [0u8; 16];
    id[15] = tag;
    NodeId { id }
}

fn command(client_id: usize, op_id: usize, op: &str) -> Command {
    Command { client_id, op_id, op: op.to_string() }
}

fn prop(slot: usize, ballot: Ballot, op: &str) -> Proposal {
    Proposal { slot, ballot, command: command(0, slot, op) }
}

fn keys(list: &[Proposal]) -> Vec<(usize, Ballot, String)> {
    list.iter().map(|p| (p.slot, p.ballot, p.command.op.clone())).collect()
}

#[test]
fn first_promise_is_adopted() {
    let mut acceptor = Acceptor::new(node(1));
    assert_eq!(acceptor.ballot, None);
    assert!(acceptor.accepted.is_empty());
    let ballot = Ballot::new(0, node(7));
    match acceptor.receive_p1(ballot) {
        Message::Phase1b(leader, me, promised, latest) => {
            assert_eq!(leader, node(7));
            assert_eq!(me, node(1));
            assert_eq!(promised, ballot);
            assert!(latest.is_empty());
        }
        other => panic!("unexpected reply {:?}", other),
    }
    assert_eq!(acceptor.ballot, Some(ballot));
}

#[test]
fn promise_only_goes_up() {
    let mut acceptor = Acceptor::new(node(1));
    let low = Ballot::new(1, node(2));
    let high = Ballot::new(1, node(3));
    acceptor.receive_p1(high);
    match acceptor.receive_p1(low) {
        Message::Phase1b(leader, me, promised, _) => {
            assert_eq!(leader, node(2));
            assert_eq!(me, node(1));
            assert_eq!(promised, high);
        }
        other => panic!("unexpected reply {:?}", other),
    }
    assert_eq!(acceptor.ballot, Some(high));
    acceptor.receive_p1(high);
    assert_eq!(acceptor.ballot, Some(high));
    let higher = Ballot::new(2, node(0));
    acceptor.receive_p1(higher);
    assert_eq!(acceptor.ballot, Some(higher));
    acceptor.receive_p2(node(2), prop(1, low, "late"));
    assert_eq!(acceptor.ballot, Some(higher));
}

#[test]
fn proposal_is_accepted_only_under_the_promised_ballot() {
    let mut acceptor = Acceptor::new(node(1));
    let ballot = Ballot::new(1, node(7));
    let other = Ballot::new(2, node(7));
    // nothing promised yet: nothing is accepted
    match acceptor.receive_p2(node(7), prop(1, ballot, "a")) {
        Message::Phase2b(leader, me, b) => {
            assert_eq!((leader, me, b), (node(7), node(1), ballot));
        }
        reply => panic!("unexpected reply {:?}", reply),
    }
    assert!(acceptor.accepted.is_empty());
    acceptor.receive_p1(ballot);
    acceptor.receive_p2(node(7), prop(1, ballot, "a"));
    assert_eq!(keys(&acceptor.accepted), vec![(1, ballot, "a".to_string())]);
    // a request under another ballot is answered with the promise held
    match acceptor.receive_p2(node(8), prop(2, other, "b")) {
        Message::Phase2b(leader, me, b) => {
            assert_eq!((leader, me, b), (node(8), node(1), ballot));
        }
        reply => panic!("unexpected reply {:?}", reply),
    }
    assert_eq!(acceptor.accepted.len(), 1);
    assert_eq!(acceptor.ballot, Some(ballot));
}

#[test]
fn request_under_a_lower_ballot_is_answered_with_the_promise() {
    let mut acceptor = Acceptor::new(node(1));
    let low = Ballot::new(0, node(7));
    let high = Ballot::new(1, node(8));
    acceptor.receive_p1(high);
    match acceptor.receive_p2(node(7), prop(1, low, "a")) {
        Message::Phase2b(leader, me, b) => {
            assert_eq!((leader, me, b), (node(7), node(1), high));
        }
        reply => panic!("unexpected reply {:?}", reply),
    }
    assert!(acceptor.accepted.is_empty());
    // the commander that asked sees the higher ballot and gives up
    let (mut commander, _) = Commander::new(node(7), prop(1, low, "a"), &vec![node(1)]);
    match commander.on_phase2b(node(1), high) {
        CommanderOutcome::Preempted(b) => assert_eq!(b, high),
        other => panic!("unexpected outcome {:?}", other),
    }
    // under the promise itself the request is accepted and the answer says so
    match acceptor.receive_p2(node(8), prop(1, high, "b")) {
        Message::Phase2b(leader, me, b) => {
            assert_eq!((leader, me, b), (node(8), node(1), high));
        }
        reply => panic!("unexpected reply {:?}", reply),
    }
    assert_eq!(keys(&acceptor.accepted), vec![(1, high, "b".to_string())]);
}

#[test]
fn latest_keeps_the_highest_ballot_of_each_slot() {
    let mut acceptor = Acceptor::new(node(1));
    let low = Ballot::new(1, node(7));
    let high = Ballot::new(2, node(3));
    acceptor.receive_p1(low);
    acceptor.receive_p2(node(7), prop(1, low, "a"));
    acceptor.receive_p2(node(7), prop(2, low, "b"));
    acceptor.receive_p1(high);
    acceptor.receive_p2(node(3), prop(1, high, "c"));
    acceptor.receive_p2(node(3), prop(1, high, "c"));
    assert_eq!(acceptor.accepted.len(), 4);
    let latest = acceptor.get_latest_accepts();
    assert_eq!(
        keys(&latest),
        vec![(2, low, "b".to_string()), (1, high, "c".to_string())]
    );
    match acceptor.receive_p1(low) {
        Message::Phase1b(_, _, promised, reported) => {
            assert_eq!(promised, high);
            assert_eq!(keys(&reported), keys(&latest));
        }
        other => panic!("unexpected reply {:?}", other),
    }
}

#[test]
fn latest_of_picks_the_first_of_equal_ballots() {
    let low = Ballot::new(1, node(7));
    let mid = Ballot::new(1, node(8));
    let high = Ballot::new(3, node(1));
    let list = vec![
        prop(4, mid, "first"),
        prop(4, low, "lower"),
        prop(4, mid, "second"),
        prop(9, high, "nine"),
        prop(4, low, "lowest"),
    ];
    assert_eq!(
        keys(&latest_of(&list)),
        vec![(4, mid, "first".to_string()), (9, high, "nine".to_string())]
    );
    assert!(latest_of(&Vec::new()).is_empty());
    let rising = vec![prop(1, low, "a"), prop(1, mid, "b"), prop(1, high, "c")];
    assert_eq!(keys(&latest_of(&rising)), vec![(1, high, "c".to_string())]);
    let falling = vec![prop(1, high, "c"), prop(1, mid, "b"), prop(1, low, "a")];
    assert_eq!(keys(&latest_of(&falling)), vec![(1, high, "c".to_string())]);
}

#[test]
fn handle_answers_the_two_phases_and_drops_the_rest() {
    let mut acceptor = Acceptor::new(node(1));
    let ballot = Ballot::new(1, node(7));
    assert!(matches!(
        acceptor.handle(Message::Phase1a(node(1), ballot)),
        Some(Message::Phase1b(..))
    ));
    assert!(matches!(
        acceptor.handle(Message::Phase2a(node(7), prop(1, ballot, "a"))),
        Some(Message::Phase2b(..))
    ));
    assert_eq!(acceptor.accepted.len(), 1);
    assert!(acceptor.handle(Message::Request(command(1, 1, "x"))).is_none());
    assert!(acceptor.handle(Message::Decision(1, command(1, 1, "x"))).is_none());
    assert!(acceptor.handle(Message::Phase2b(node(7), node(1), ballot)).is_none());
    assert_eq!(acceptor.ballot, Some(ballot));
    assert_eq!(acceptor.accepted.len(), 1);
}
