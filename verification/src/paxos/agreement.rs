//! Why replicas agree. In every run of an ensemble, the proposals that
//! quorums accept for one slot carry one command. An acceptor that holds a
//! promise answers a second-phase request with that promise, so a commander
//! counts its answer only where the acceptor accepted. Then every decision
//! that is announced was accepted by a quorum, and the replicas hold the
//! same command for each slot that they have a decision for. An acceptor
//! that has promised nothing holds no ballot to answer with, and hands back
//! the ballot it was asked under; agreement is stated for the runs in which
//! no second-phase request reaches such an acceptor. This module holds no
//! executable code.

use vstd::prelude::*;
use crate::node::NodeId;
use crate::paxos::acceptor::AcceptorView;
use crate::paxos::ensemble::Ensemble;
use crate::paxos::ensemble::Event;
use crate::paxos::ensemble::Packet;
use crate::paxos::leader::CommanderView;
use crate::paxos::leader::LeaderView;
use crate::paxos::leader::ScoutView;
use crate::paxos::Ballot;
use crate::paxos::Command;
use crate::paxos::Destination;
use crate::paxos::MessageView;
use crate::paxos::OutboundView;
use crate::paxos::Proposal;
use crate::state::StateMachine;

verus! {

/// A quorum of the acceptors `ids`: a set of them that holds a strict
/// majority.
pub open spec fn is_quorum(q: Set<NodeId>, ids: Seq<NodeId>) -> bool {
    &&& q.finite()
    &&& q.subset_of(ids.to_set())
    &&& q.len() >= crate::paxos::quorum_size(ids.len())
}

/// The acceptors of `ids` that are not among `waiting`.
pub open spec fn answered(ids: Seq<NodeId>, waiting: Seq<NodeId>) -> Set<NodeId> {
    Set::new(|a: NodeId| ids.contains(a) && !waiting.contains(a))
}

/// `accepted` holds `p`, command and all.
pub open spec fn holds(accepted: Seq<Proposal>, p: Proposal) -> bool {
    exists|i: int| 0 <= i < accepted.len() && #[trigger] accepted[i] == p
}

/// The promise is above `b`.
pub open spec fn promised_above(promise: Option<Ballot>, b: Ballot) -> bool {
    promise matches Some(held) && b.precedes(held)
}

/// The acceptor can no longer accept `p` and has not accepted it: its
/// promise is above the ballot of `p`, and `p` is not among what it
/// accepted.
pub open spec fn passed(a: AcceptorView, p: Proposal) -> bool {
    promised_above(a.ballot, p.ballot) && !holds(a.accepted, p)
}

/// No quorum can ever have accepted `p`: each quorum has a member that has
/// passed it.
pub open spec fn blocked<S>(e: Ensemble<S>, ids: Seq<NodeId>, p: Proposal) -> bool {
    forall|q: Set<NodeId>| #[trigger]
        is_quorum(q, ids) ==> exists|a: NodeId|
            q.contains(a) && e.acceptors.contains_key(a) && #[trigger] passed(e.acceptors[a], p)
}

/// A quorum has accepted `p`.
pub open spec fn chosen<S>(e: Ensemble<S>, ids: Seq<NodeId>, p: Proposal) -> bool {
    exists|q: Set<NodeId>| #[trigger]
        is_quorum(q, ids) && forall|a: NodeId| #[trigger]
            q.contains(a) ==> e.acceptors.contains_key(a) && holds(e.acceptors[a].accepted, p)
}

/// The second-phase request for `p` is on the wire, sent by the leader of
/// its ballot.
pub open spec fn asked<S>(e: Ensemble<S>, p: Proposal) -> bool {
    e.wire.contains(
        Packet::Sent {
            from: p.ballot.leader_id,
            out: crate::paxos::leader::commander_request(p.ballot.leader_id, p),
        },
    )
}

/// What a first-phase answer of the acceptor `a` with the promise `b` and
/// the report `reported` says is true of `a`: its promise is at least
/// `b`; it has accepted what it reported, under ballots up to `b`; and
/// for each proposal that it has accepted under a ballot below `b`, it
/// reported one for that slot with at least that ballot.
pub open spec fn truthful(a: AcceptorView, b: Ballot, reported: Seq<Proposal>) -> bool {
    &&& a.ballot matches Some(held) && b.at_most(held)
    &&& forall|i: int|
        0 <= i < reported.len() ==> holds(a.accepted, #[trigger] reported[i])
            && reported[i].ballot.at_most(b)
    &&& forall|j: int|
        0 <= j < a.accepted.len() && (#[trigger] a.accepted[j]).ballot.precedes(b) ==> exists|
            i: int,
        |
            0 <= i < reported.len() && (#[trigger] reported[i]).slot == a.accepted[j].slot
                && a.accepted[j].ballot.at_most(reported[i].ballot)
}

/// For each proposal of `reported`, `pvalues` holds one with its slot and
/// ballot.
pub open spec fn covers(pvalues: Seq<Proposal>, reported: Seq<Proposal>) -> bool {
    forall|i: int|
        0 <= i < reported.len() ==> crate::paxos::leader::holds_key(
            pvalues,
            #[trigger] reported[i],
        )
}

/// From `e` to `next` the acceptors have only moved on: there are the
/// same ones and more; what one had passed, it has passed; and what one
/// held, it holds.
pub open spec fn moves_on<S>(e: Ensemble<S>, next: Ensemble<S>) -> bool {
    &&& forall|a: NodeId| #[trigger] e.acceptors.contains_key(a) ==> next.acceptors.contains_key(a)
    &&& forall|a: NodeId, p: Proposal|
        e.acceptors.contains_key(a) && #[trigger] passed(e.acceptors[a], p) ==> passed(
            next.acceptors[a],
            p,
        )
    &&& forall|a: NodeId, p: Proposal|
        e.acceptors.contains_key(a) && #[trigger] holds(e.acceptors[a].accepted, p) ==> holds(
            next.acceptors[a].accepted,
            p,
        )
}

/// The first-phase answer of the acceptor `a` with the promise `b` and
/// the report `reported` is on the wire.
pub open spec fn answer_sent<S>(
    e: Ensemble<S>,
    a: NodeId,
    b: Ballot,
    reported: Seq<Proposal>,
) -> bool {
    exists|leader: NodeId, commander: Option<(usize, Ballot)>, named: NodeId| #[trigger]
        e.wire.contains(
            Packet::Answer {
                leader,
                commander,
                message: MessageView::Phase1b(named, a, b, reported),
            },
        )
}

/// The decision of `command` for `slot` is on the wire.
pub open spec fn announced<S>(e: Ensemble<S>, slot: usize, command: Command) -> bool {
    exists|leader: NodeId| #[trigger]
        e.wire.contains(
            Packet::Sent {
                from: leader,
                out: crate::paxos::leader::decision_notice(slot, command),
            },
        )
}

/// The acceptors are those of `ids`, each knows its name and is well
/// formed, and what one has accepted, a leader asked it to accept.
pub open spec fn acceptors_consistent<S>(e: Ensemble<S>, ids: Seq<NodeId>) -> bool {
    &&& forall|a: NodeId| #[trigger] e.acceptors.contains_key(a) <==> ids.contains(a)
    &&& forall|a: NodeId| #[trigger]
        e.acceptors.contains_key(a) ==> e.acceptors[a].id == a
            && crate::paxos::acceptor::acceptor_wf(e.acceptors[a])
    &&& forall|a: NodeId, i: int|
        e.acceptors.contains_key(a) && 0 <= i < e.acceptors[a].accepted.len() ==> asked(
            e,
            #[trigger] e.acceptors[a].accepted[i],
        )
}

/// If the packet is a first-phase answer, it is true of the acceptor it
/// names.
pub open spec fn answer_is_truthful<S>(e: Ensemble<S>, packet: Packet) -> bool {
    match packet {
        Packet::Answer { message: MessageView::Phase1b(_, a, b, reported), .. } => {
            e.acceptors.contains_key(a) && truthful(e.acceptors[a], b, reported)
        },
        _ => true,
    }
}

/// If the packet is a second-phase request, the leader of its ballot sent
/// it to the acceptors; that leader has moved on to a higher ballot, or
/// it has no scout and, if it is active, holds the request's command for
/// the request's slot.
pub open spec fn request_is_sound<S>(e: Ensemble<S>, packet: Packet) -> bool {
    match packet {
        Packet::Sent { from, out } => match out.message {
            MessageView::Phase2a(named, p) => {
                &&& from == p.ballot.leader_id
                &&& named == from
                &&& out.to == Destination::Acceptors
                &&& e.leaders.contains_key(from)
                &&& {
                    let l = e.leaders[from];
                    ||| p.ballot.precedes(l.ballot)
                    ||| (p.ballot == l.ballot && l.scout is None && (l.active
                        ==> l.proposals.contains_key(p.slot) && l.proposals[p.slot]
                        == p.command))
                }
            },
            _ => true,
        },
        Packet::Answer { message, .. } => !(message is Phase2a),
    }
}

/// A quorum has accepted `command` for `slot` under some ballot.
pub open spec fn chosen_for<S>(
    e: Ensemble<S>,
    ids: Seq<NodeId>,
    slot: usize,
    command: Command,
) -> bool {
    exists|b: Ballot| #[trigger] chosen(e, ids, Proposal { slot, ballot: b, command })
}

/// If the packet announces a decision, a quorum has accepted the decided
/// command for the slot under some ballot. This is asked only where
/// `trusting` holds.
pub open spec fn decision_is_chosen<S>(
    e: Ensemble<S>,
    ids: Seq<NodeId>,
    packet: Packet,
    trusting: bool,
) -> bool {
    match packet.message() {
        MessageView::Decision(slot, command) => trusting ==> chosen_for(e, ids, slot, command),
        _ => true,
    }
}

/// What is on the wire is as the three predicates above say.
pub open spec fn wire_consistent<S>(e: Ensemble<S>, ids: Seq<NodeId>, trusting: bool) -> bool {
    forall|packet: Packet| #[trigger]
        e.wire.contains(packet) ==> answer_is_truthful(e, packet) && request_is_sound(e, packet)
            && decision_is_chosen(e, ids, packet, trusting)
}

/// Requests for one slot under one ballot carry one command.
pub open spec fn one_command<S>(e: Ensemble<S>) -> bool {
    forall|p: Proposal, q: Proposal|
        #[trigger] asked(e, p) && #[trigger] asked(e, q) && p.same_key(q) ==> p.command
            == q.command
}

/// Where a request is on the wire, no other command can have been chosen
/// for its slot under a lower ballot, or ever be.
pub open spec fn safe<S>(e: Ensemble<S>, ids: Seq<NodeId>) -> bool {
    forall|p: Proposal, x: Proposal|
        #[trigger] asked(e, p) && x.slot == p.slot && x.ballot.precedes(p.ballot) && x.command
            != p.command ==> #[trigger] blocked(e, ids, x)
}

/// Below the ballot of an active leader, nothing can have been chosen, or
/// ever be, but what the leader holds for the slot.
pub open spec fn leader_is_safe<S>(e: Ensemble<S>, ids: Seq<NodeId>, l: LeaderView) -> bool {
    forall|x: Proposal|
        l.active && x.ballot.precedes(l.ballot) && !(l.proposals.contains_key(x.slot)
            && l.proposals[x.slot] == x.command) ==> #[trigger] blocked(e, ids, x)
}

/// The acceptor `a` has sent an answer with the ballot `b` whose
/// proposals are among `pvalues`, by slot and ballot.
pub open spec fn answered_with<S>(
    e: Ensemble<S>,
    a: NodeId,
    b: Ballot,
    pvalues: Seq<Proposal>,
) -> bool {
    exists|reported: Seq<Proposal>| #[trigger]
        answer_sent(e, a, b, reported) && covers(pvalues, reported)
}

/// The acceptor `a` has accepted `p`.
pub open spec fn accepted_by<S>(e: Ensemble<S>, a: NodeId, p: Proposal) -> bool {
    e.acceptors.contains_key(a) && holds(e.acceptors[a].accepted, p)
}

/// Some acceptor has accepted `p`.
pub open spec fn accepted_somewhere<S>(e: Ensemble<S>, p: Proposal) -> bool {
    exists|a: NodeId| #[trigger] accepted_by(e, a, p)
}

/// The scout works under the leader's ballot while the leader is not
/// active. Each acceptor that it no longer waits for has sent an answer
/// with that ballot, whose proposals the scout has gathered by slot and
/// ballot. Each gathered proposal has been accepted by some acceptor, under
/// a ballot up to the scout's.
pub open spec fn scout_consistent<S>(
    e: Ensemble<S>,
    ids: Seq<NodeId>,
    l: LeaderView,
    s: ScoutView,
) -> bool {
    &&& s.ballot == l.ballot
    &&& s.total == ids.len()
    &&& !l.active
    &&& forall|x: NodeId| #[trigger] s.waiting.contains(x) ==> ids.contains(x)
    &&& forall|a: NodeId|
        ids.contains(a) && !s.waiting.contains(a) ==> #[trigger] answered_with(
            e,
            a,
            s.ballot,
            s.pvalues,
        )
    &&& forall|i: int|
        0 <= i < s.pvalues.len() ==> (#[trigger] s.pvalues[i]).ballot.at_most(s.ballot)
            && accepted_somewhere(e, s.pvalues[i])
}

/// The commander's request is on the wire, and, where `trusting` holds,
/// each acceptor that it no longer waits for has accepted its proposal.
pub open spec fn commander_consistent<S>(
    e: Ensemble<S>,
    ids: Seq<NodeId>,
    c: CommanderView,
    trusting: bool,
) -> bool {
    &&& asked(e, c.proposal)
    &&& c.total == ids.len()
    &&& forall|x: NodeId| #[trigger] c.waiting.contains(x) ==> ids.contains(x)
    &&& trusting ==> forall|a: NodeId|
        ids.contains(a) && !c.waiting.contains(a) ==> #[trigger] accepted_by(e, a, c.proposal)
}

/// A leader knows its name and the acceptors, works under ballots of its
/// own, is well formed, has no scout while active, and is consistent with
/// the rest of the ensemble in what it holds and what its helpers hold.
pub open spec fn leader_consistent<S>(
    e: Ensemble<S>,
    ids: Seq<NodeId>,
    name: NodeId,
    l: LeaderView,
    trusting: bool,
) -> bool {
    &&& l.id == name
    &&& l.acceptors == ids
    &&& l.ballot.leader_id == name
    &&& crate::paxos::leader::leader_wf(l)
    &&& leader_is_safe(e, ids, l)
    &&& l.scout matches Some(s) ==> scout_consistent(e, ids, l, s)
    &&& forall|i: int|
        0 <= i < l.commanders.len() ==> commander_consistent(e, ids, #[trigger] l.commanders[i], trusting)
}

/// Every leader is consistent.
pub open spec fn leaders_consistent<S>(e: Ensemble<S>, ids: Seq<NodeId>, trusting: bool) -> bool {
    forall|name: NodeId| #[trigger]
        e.leaders.contains_key(name) ==> leader_consistent(e, ids, name, e.leaders[name], trusting)
}

/// What a replica holds as decided was announced as decided.
pub open spec fn replicas_consistent<S>(e: Ensemble<S>) -> bool {
    forall|r: NodeId, slot: usize|
        e.replicas.contains_key(r) && #[trigger] e.replicas[r].decisions.contains_key(slot)
            ==> announced(e, slot, e.replicas[r].decisions[slot])
}

/// Everything that holds of an ensemble with the acceptors `ids` at every
/// moment of a run. With `trusting`, this includes what holds only of runs
/// in which the second-phase answers that commanders count come from
/// acceptors that accepted: that the acceptors that a commander no longer
/// waits for have accepted its proposal, and that every decision on the
/// wire was accepted by a quorum.
pub open spec fn consistent<S>(e: Ensemble<S>, ids: Seq<NodeId>, trusting: bool) -> bool {
    &&& ids.no_duplicates()
    &&& acceptors_consistent(e, ids)
    &&& wire_consistent(e, ids, trusting)
    &&& one_command(e)
    &&& safe(e, ids)
    &&& leaders_consistent(e, ids, trusting)
    &&& replicas_consistent(e)
}

/// Some proposal of `accepted` is for `slot` under `ballot`.
pub open spec fn accepted_under(accepted: Seq<Proposal>, slot: usize, ballot: Ballot) -> bool {
    exists|i: int|
        0 <= i < accepted.len() && (#[trigger] accepted[i]).slot == slot && accepted[i].ballot
            == ballot
}

/// The event is not a second-phase answer that a commander would count
/// though the acceptor it names has not accepted the commander's slot
/// under the commander's ballot. This holds of every event of a run in
/// which the acceptors that are asked hold a promise (see `promised`).
pub open spec fn honest<S>(e: Ensemble<S>, event: Event) -> bool {
    match event {
        Event::Answer {
            commander: Some((slot, ballot)),
            message: MessageView::Phase2b(_, acceptor, reported),
            ..
        } => reported == ballot ==> e.acceptors.contains_key(acceptor) && accepted_under(
            e.acceptors[acceptor].accepted,
            slot,
            ballot,
        ),
        _ => true,
    }
}

/// The event does not hand a second-phase request to an acceptor that has
/// promised nothing.
pub open spec fn promised<S>(e: Ensemble<S>, event: Event) -> bool {
    match event {
        Event::Ask { acceptor, message: MessageView::Phase2a(..), .. } => {
            e.acceptors[acceptor].ballot is Some
        },
        _ => true,
    }
}

/// If the packet is a second-phase answer that carries the ballot of the
/// commander that asked, the acceptor that it names has accepted the
/// commander's slot under that ballot.
pub open spec fn answer_is_backed<S>(e: Ensemble<S>, packet: Packet) -> bool {
    match packet {
        Packet::Answer {
            commander: Some((slot, ballot)),
            message: MessageView::Phase2b(_, acceptor, reported),
            ..
        } => reported == ballot ==> e.acceptors.contains_key(acceptor) && accepted_under(
            e.acceptors[acceptor].accepted,
            slot,
            ballot,
        ),
        _ => true,
    }
}

/// Every second-phase answer on the wire is backed.
pub open spec fn answers_are_backed<S>(e: Ensemble<S>) -> bool {
    forall|packet: Packet| #[trigger] e.wire.contains(packet) ==> answer_is_backed(e, packet)
}

/// A packet that touches nothing of what agreement rests on: a proposal
/// to the leaders, a response to a client, or a first-phase request.
pub open spec fn harmless(packet: Packet) -> bool {
    packet matches Packet::Sent { out, .. } && (out.message is Propose || out.message is Response
        || out.message is Phase1a)
}

/// The packet was sent by `name`.
pub open spec fn sent_from(packet: Packet, name: NodeId) -> bool {
    packet matches Packet::Sent { from, .. } && from == name
}

/// The ensemble in which the leader `name` has become `after` and has
/// sent `out`.
pub open spec fn with_leader<S>(
    e: Ensemble<S>,
    name: NodeId,
    after: LeaderView,
    out: Seq<OutboundView>,
) -> Ensemble<S> {
    Ensemble {
        leaders: e.leaders.insert(name, after),
        wire: e.wire.union(crate::paxos::ensemble::sent_by(name, out)),
        ..e
    }
}

/// The message is a first-phase request, or a decision, which, where
/// `trusting` holds, is of a command that a quorum has accepted for the
/// slot.
pub open spec fn settled<S>(
    e: Ensemble<S>,
    ids: Seq<NodeId>,
    message: MessageView,
    trusting: bool,
) -> bool {
    match message {
        MessageView::Phase1a(..) => true,
        MessageView::Decision(slot, command) => trusting ==> chosen_for(e, ids, slot, command),
        _ => false,
    }
}

/// Any two quorums have an acceptor in common.
pub proof fn lemma_quorums_meet(q1: Set<NodeId>, q2: Set<NodeId>, ids: Seq<NodeId>)
    requires
        ids.no_duplicates(),
        is_quorum(q1, ids),
        is_quorum(q2, ids),
    ensures
        exists|a: NodeId| q1.contains(a) && q2.contains(a),
{
    ids.unique_seq_to_set();
    vstd::seq_lib::seq_to_set_is_finite(ids);
    vstd::set_lib::lemma_set_intersect_union_lens(q1, q2);
    vstd::set_lib::lemma_len_subset(q1 + q2, ids.to_set());
    let both = q1.intersect(q2);
    assert(both.len() > 0);
    assert(both.finite());
    if both.is_empty() {
        assert(both =~= Set::empty());
    }
    let a = both.choose();
    assert(q1.contains(a) && q2.contains(a));
}

/// The acceptors that a helper no longer waits for are a quorum once
/// enough have answered.
pub proof fn lemma_answered_is_quorum(ids: Seq<NodeId>, waiting: Seq<NodeId>)
    requires
        ids.no_duplicates(),
        waiting.no_duplicates(),
        forall|x: NodeId| waiting.contains(x) ==> ids.contains(x),
        crate::paxos::leader::reached_quorum(ids.len(), waiting),
    ensures
        is_quorum(answered(ids, waiting), ids),
{
    ids.unique_seq_to_set();
    waiting.unique_seq_to_set();
    vstd::seq_lib::seq_to_set_is_finite(ids);
    vstd::seq_lib::seq_to_set_is_finite(waiting);
    let all = ids.to_set();
    let rest = waiting.to_set();
    vstd::set_lib::lemma_set_difference_len(all, rest);
    assert(all.intersect(rest) =~= rest);
    assert(answered(ids, waiting) =~= all.difference(rest));
}

/// What an acceptor passed, it has passed for good; what it holds, it
/// holds for good; and its promise only goes up.
proof fn lemma_acceptor_moves_on(a: AcceptorView, message: MessageView, p: Proposal)
    requires
        crate::paxos::acceptor::acceptor_wf(a),
    ensures
        passed(a, p) ==> passed(crate::paxos::acceptor::acceptor_step(a, message).0, p),
        holds(a.accepted, p) ==> holds(
            crate::paxos::acceptor::acceptor_step(a, message).0.accepted,
            p,
        ),
        promised_above(a.ballot, p.ballot) ==> promised_above(
            crate::paxos::acceptor::acceptor_step(a, message).0.ballot,
            p.ballot,
        ),
{
    let after = crate::paxos::acceptor::acceptor_step(a, message).0;
    crate::paxos::acceptor::lemma_promise_never_lowers(a, message);
    if promised_above(a.ballot, p.ballot) {
        let held = a.ballot.unwrap();
        let later = after.ballot.unwrap();
        if held != later {
            crate::paxos::lemma_ballot_order_is_transitive(p.ballot, held, later);
        }
    }
    if holds(a.accepted, p) {
        let i = choose|i: int| 0 <= i < a.accepted.len() && #[trigger] a.accepted[i] == p;
        assert(after.accepted[i] == p);
    }
    if passed(a, p) && holds(after.accepted, p) {
        let i = choose|i: int| 0 <= i < after.accepted.len() && #[trigger] after.accepted[i] == p;
        if i < a.accepted.len() {
            assert(a.accepted[i] == p);
        } else {
            crate::paxos::lemma_ballot_order_is_strict(p.ballot, a.ballot.unwrap());
        }
    }
}

/// An answer stays true of the acceptor, whatever the acceptor takes next.
proof fn lemma_truthful_stays(
    a: AcceptorView,
    message: MessageView,
    b: Ballot,
    reported: Seq<Proposal>,
)
    requires
        crate::paxos::acceptor::acceptor_wf(a),
        truthful(a, b, reported),
    ensures
        truthful(crate::paxos::acceptor::acceptor_step(a, message).0, b, reported),
{
    let after = crate::paxos::acceptor::acceptor_step(a, message).0;
    crate::paxos::acceptor::lemma_promise_never_lowers(a, message);
    let held = a.ballot.unwrap();
    let later = after.ballot.unwrap();
    if b != held && held != later {
        crate::paxos::lemma_ballot_order_is_transitive(b, held, later);
    }
    assert forall|i: int| 0 <= i < reported.len() implies holds(
        after.accepted,
        #[trigger] reported[i],
    ) by {
        lemma_acceptor_moves_on(a, message, reported[i]);
    }
    assert forall|j: int|
        0 <= j < after.accepted.len() && (#[trigger] after.accepted[j]).ballot.precedes(
            b,
        ) implies exists|i: int|
        0 <= i < reported.len() && (#[trigger] reported[i]).slot == after.accepted[j].slot
            && after.accepted[j].ballot.at_most(reported[i].ballot) by {
        if j < a.accepted.len() {
            assert(after.accepted[j] == a.accepted[j]);
        } else {
            crate::paxos::lemma_ballot_order_is_strict(b, held);
            crate::paxos::lemma_ballot_order_is_strict(held, b);
        }
    }
}

/// The answer that an acceptor gives to a first-phase request is true of
/// the acceptor as it is after the request.
proof fn lemma_answer_is_truthful(a: AcceptorView, target: NodeId, asked: Ballot)
    requires
        crate::paxos::acceptor::acceptor_wf(a),
    ensures
        truthful(
            crate::paxos::acceptor::after_p1(a, asked),
            crate::paxos::acceptor::promise_after(a.ballot, asked),
            crate::paxos::acceptor::latest(a.accepted),
        ),
{
    let after = crate::paxos::acceptor::after_p1(a, asked);
    let b = crate::paxos::acceptor::promise_after(a.ballot, asked);
    let reported = crate::paxos::acceptor::latest(a.accepted);
    let at = crate::paxos::acceptor::lemma_latest_entries(a.accepted, a.accepted.len() as int);
    assert forall|i: int| 0 <= i < reported.len() implies holds(
        after.accepted,
        #[trigger] reported[i],
    ) && reported[i].ballot.at_most(b) by {
        assert(after.accepted[at[i]] == reported[i]);
        assert(crate::paxos::acceptor::promise_at_most(Some(a.accepted[at[i]].ballot), a.ballot));
        let held = a.ballot.unwrap();
        if held.precedes(asked) && a.accepted[at[i]].ballot != held {
            crate::paxos::lemma_ballot_order_is_transitive(a.accepted[at[i]].ballot, held, asked);
        }
    }
    assert forall|j: int|
        0 <= j < after.accepted.len() && (#[trigger] after.accepted[j]).ballot.precedes(
            b,
        ) implies exists|i: int|
        0 <= i < reported.len() && (#[trigger] reported[i]).slot == after.accepted[j].slot
            && after.accepted[j].ballot.at_most(reported[i].ballot) by {
        let slot = a.accepted[j].slot;
        crate::paxos::acceptor::lemma_speaker_exists(a.accepted, slot, a.accepted.len() as int);
        let k = choose|k: int|
            0 <= k < a.accepted.len() && (#[trigger] a.accepted[k]).slot == slot
                && crate::paxos::acceptor::is_latest_within(
                a.accepted,
                k,
                a.accepted.len() as int,
            );
        assert(crate::paxos::acceptor::is_latest(a.accepted, k));
        let i = choose|i: int| 0 <= i < at.len() && #[trigger] at[i] == k;
        assert(reported[i] == a.accepted[k]);
        assert(a.accepted[j].slot == a.accepted[k].slot);
    }
}

/// What was gathered stays gathered: joining more proposals keeps the ones
/// that were there, in their places.
proof fn lemma_gather_extends(pvalues: Seq<Proposal>, more: Seq<Proposal>, n: int)
    requires
        0 <= n <= more.len(),
    ensures
        pvalues.len() <= crate::paxos::leader::gather_upto(pvalues, more, n).len(),
        forall|i: int|
            0 <= i < pvalues.len() ==> crate::paxos::leader::gather_upto(pvalues, more, n)[i]
                == pvalues[i],
        forall|i: int|
            0 <= i < n ==> crate::paxos::leader::holds_key(
                crate::paxos::leader::gather_upto(pvalues, more, n),
                #[trigger] more[i],
            ),
        forall|k: int|
            pvalues.len() <= k < crate::paxos::leader::gather_upto(pvalues, more, n).len()
                ==> holds(more, #[trigger] crate::paxos::leader::gather_upto(pvalues, more, n)[k]),
    decreases n,
{
    if n > 0 {
        lemma_gather_extends(pvalues, more, n - 1);
        let before = crate::paxos::leader::gather_upto(pvalues, more, n - 1);
        let after = crate::paxos::leader::gather_upto(pvalues, more, n);
        assert forall|i: int| 0 <= i < n implies crate::paxos::leader::holds_key(
            after,
            #[trigger] more[i],
        ) by {
            if i < n - 1 || crate::paxos::leader::holds_key(before, more[n - 1]) {
                assert(crate::paxos::leader::holds_key(before, more[i]));
                let j = choose|j: int|
                    0 <= j < before.len() && (#[trigger] before[j]).same_key(more[i]);
                assert(after[j].same_key(more[i]));
            } else {
                assert(after[after.len() - 1].same_key(more[i]));
            }
        }
        assert forall|k: int| pvalues.len() <= k < after.len() implies holds(
            more,
            #[trigger] after[k],
        ) by {
            if k < before.len() {
                assert(holds(more, before[k]));
            } else {
                assert(more[n - 1] == after[k]);
            }
        }
    }
}

/// What is blocked stays blocked while the acceptors only move on.
proof fn lemma_blocked_stays<S>(e: Ensemble<S>, next: Ensemble<S>, ids: Seq<NodeId>, p: Proposal)
    requires
        blocked(e, ids, p),
        moves_on(e, next),
    ensures
        blocked(next, ids, p),
{
    assert forall|q: Set<NodeId>| #[trigger] is_quorum(q, ids) implies exists|a: NodeId|
        q.contains(a) && next.acceptors.contains_key(a) && #[trigger] passed(
            next.acceptors[a],
            p,
        ) by {
        let a = choose|a: NodeId|
            q.contains(a) && e.acceptors.contains_key(a) && #[trigger] passed(e.acceptors[a], p);
        assert(passed(next.acceptors[a], p));
    }
}

/// What is chosen stays chosen while the acceptors only move on.
proof fn lemma_chosen_stays<S>(e: Ensemble<S>, next: Ensemble<S>, ids: Seq<NodeId>, p: Proposal)
    requires
        chosen(e, ids, p),
        moves_on(e, next),
    ensures
        chosen(next, ids, p),
{
    let q = choose|q: Set<NodeId>| #[trigger]
        is_quorum(q, ids) && forall|a: NodeId| #[trigger]
            q.contains(a) ==> e.acceptors.contains_key(a) && holds(e.acceptors[a].accepted, p);
    assert forall|a: NodeId| #[trigger] q.contains(a) implies next.acceptors.contains_key(a)
        && holds(next.acceptors[a].accepted, p) by {
        assert(e.acceptors.contains_key(a));
        assert(holds(e.acceptors[a].accepted, p));
    }
}

/// A scout stays consistent while the acceptors only move on and the wire
/// only grows.
proof fn lemma_scout_stays<S>(
    e: Ensemble<S>,
    next: Ensemble<S>,
    ids: Seq<NodeId>,
    l: LeaderView,
    s: ScoutView,
)
    requires
        scout_consistent(e, ids, l, s),
        moves_on(e, next),
        forall|packet: Packet| e.wire.contains(packet) ==> next.wire.contains(packet),
    ensures
        scout_consistent(next, ids, l, s),
{
    assert forall|a: NodeId| ids.contains(a) && !s.waiting.contains(a) implies #[trigger] answered_with(
        next,
        a,
        s.ballot,
        s.pvalues,
    ) by {
        assert(answered_with(e, a, s.ballot, s.pvalues));
        let reported = choose|reported: Seq<Proposal>| #[trigger]
            answer_sent(e, a, s.ballot, reported) && covers(s.pvalues, reported);
        lemma_answer_stays_sent(e, next, a, s.ballot, reported);
    }
    assert forall|i: int| 0 <= i < s.pvalues.len() implies (#[trigger] s.pvalues[i]).ballot.at_most(
        s.ballot,
    ) && accepted_somewhere(next, s.pvalues[i]) by {
        assert(accepted_somewhere(e, s.pvalues[i]));
        let a = choose|a: NodeId| #[trigger] accepted_by(e, a, s.pvalues[i]);
        assert(holds(e.acceptors[a].accepted, s.pvalues[i]));
        assert(accepted_by(next, a, s.pvalues[i]));
    }
}

/// A commander stays consistent while the acceptors only move on and the
/// wire only grows.
proof fn lemma_commander_stays<S>(
    e: Ensemble<S>,
    next: Ensemble<S>,
    ids: Seq<NodeId>,
    c: CommanderView,
    trusting: bool,
)
    requires
        commander_consistent(e, ids, c, trusting),
        moves_on(e, next),
        forall|packet: Packet| e.wire.contains(packet) ==> next.wire.contains(packet),
    ensures
        commander_consistent(next, ids, c, trusting),
{
    if trusting {
        assert forall|a: NodeId|
            ids.contains(a) && !c.waiting.contains(a) implies #[trigger] accepted_by(
            next,
            a,
            c.proposal,
        ) by {
            assert(accepted_by(e, a, c.proposal));
            assert(holds(e.acceptors[a].accepted, c.proposal));
        }
    }
}

/// Agreement follows: in a consistent ensemble, two replicas that hold a
/// decision for the same slot hold the same command.
pub proof fn lemma_consistent_replicas_agree<S>(
    e: Ensemble<S>,
    ids: Seq<NodeId>,
    r1: NodeId,
    r2: NodeId,
    slot: usize,
)
    requires
        consistent(e, ids, true),
        e.replicas.contains_key(r1),
        e.replicas.contains_key(r2),
        e.replicas[r1].decisions.contains_key(slot),
        e.replicas[r2].decisions.contains_key(slot),
    ensures
        e.replicas[r1].decisions[slot] == e.replicas[r2].decisions[slot],
{
    let c1 = e.replicas[r1].decisions[slot];
    let c2 = e.replicas[r2].decisions[slot];
    assert(announced(e, slot, c1));
    assert(announced(e, slot, c2));
    let l1 = choose|leader: NodeId| #[trigger]
        e.wire.contains(
            Packet::Sent {
                from: leader,
                out: crate::paxos::leader::decision_notice(slot, c1),
            },
        );
    let l2 = choose|leader: NodeId| #[trigger]
        e.wire.contains(
            Packet::Sent {
                from: leader,
                out: crate::paxos::leader::decision_notice(slot, c2),
            },
        );
    let n1 = Packet::Sent { from: l1, out: crate::paxos::leader::decision_notice(slot, c1) };
    let n2 = Packet::Sent { from: l2, out: crate::paxos::leader::decision_notice(slot, c2) };
    assert(decision_is_chosen(e, ids, n1, true));
    assert(decision_is_chosen(e, ids, n2, true));
    let b1 = choose|b: Ballot| #[trigger] chosen(e, ids, Proposal { slot, ballot: b, command: c1 });
    let b2 = choose|b: Ballot| #[trigger] chosen(e, ids, Proposal { slot, ballot: b, command: c2 });
    lemma_chosen_agree(
        e,
        ids,
        Proposal { slot, ballot: b1, command: c1 },
        Proposal { slot, ballot: b2, command: c2 },
        true,
    );
}

/// In a consistent ensemble, two proposals that were chosen for the same
/// slot carry the same command.
pub proof fn lemma_chosen_agree<S>(
    e: Ensemble<S>,
    ids: Seq<NodeId>,
    p1: Proposal,
    p2: Proposal,
    trusting: bool,
)
    requires
        consistent(e, ids, trusting),
        chosen(e, ids, p1),
        chosen(e, ids, p2),
        p1.slot == p2.slot,
    ensures
        p1.command == p2.command,
{
    let q1 = choose|q: Set<NodeId>| #[trigger]
        is_quorum(q, ids) && forall|a: NodeId| #[trigger]
            q.contains(a) ==> e.acceptors.contains_key(a) && holds(e.acceptors[a].accepted, p1);
    let q2 = choose|q: Set<NodeId>| #[trigger]
        is_quorum(q, ids) && forall|a: NodeId| #[trigger]
            q.contains(a) ==> e.acceptors.contains_key(a) && holds(e.acceptors[a].accepted, p2);
    lemma_quorums_meet(q1, q2, ids);
    let a = choose|a: NodeId| q1.contains(a) && q2.contains(a);
    assert(asked(e, p1)) by {
        let i = choose|i: int|
            0 <= i < e.acceptors[a].accepted.len() && #[trigger] e.acceptors[a].accepted[i] == p1;
    }
    assert(asked(e, p2)) by {
        let i = choose|i: int|
            0 <= i < e.acceptors[a].accepted.len() && #[trigger] e.acceptors[a].accepted[i] == p2;
    }
    crate::paxos::lemma_ballot_order_is_strict(p1.ballot, p2.ballot);
    if p1.command != p2.command {
        if p1.ballot.precedes(p2.ballot) {
            assert(blocked(e, ids, p1));
            let w = choose|w: NodeId|
                q1.contains(w) && e.acceptors.contains_key(w) && #[trigger] passed(
                    e.acceptors[w],
                    p1,
                );
            assert(false);
        } else if p2.ballot.precedes(p1.ballot) {
            assert(blocked(e, ids, p2));
            let w = choose|w: NodeId|
                q2.contains(w) && e.acceptors.contains_key(w) && #[trigger] passed(
                    e.acceptors[w],
                    p2,
                );
            assert(false);
        } else {
            assert(p1.same_key(p2));
        }
    }
}

/// Frame: more harmless packets on the wire, with the acceptors and the
/// leaders as they were, keep everything consistent that does not speak
/// of replicas.
proof fn lemma_quiet_step<S>(e: Ensemble<S>, next: Ensemble<S>, ids: Seq<NodeId>, trusting: bool)
    requires
        consistent(e, ids, trusting),
        next.acceptors == e.acceptors,
        next.leaders == e.leaders,
        forall|packet: Packet| e.wire.contains(packet) ==> next.wire.contains(packet),
        forall|packet: Packet|
            next.wire.contains(packet) && !e.wire.contains(packet) ==> harmless(packet),
    ensures
        acceptors_consistent(next, ids),
        wire_consistent(next, ids, trusting),
        one_command(next),
        safe(next, ids),
        leaders_consistent(next, ids, trusting),
{
    assert(moves_on(e, next));
    assert forall|p: Proposal| #[trigger] asked(next, p) implies asked(e, p) by {
        let packet = Packet::Sent {
            from: p.ballot.leader_id,
            out: crate::paxos::leader::commander_request(p.ballot.leader_id, p),
        };
        assert(!harmless(packet));
    }
    assert forall|x: Proposal| #[trigger] blocked(e, ids, x) implies blocked(next, ids, x) by {
        lemma_blocked_stays(e, next, ids, x);
    }
    assert forall|a: NodeId, i: int|
        next.acceptors.contains_key(a) && 0 <= i < next.acceptors[a].accepted.len() implies asked(
        next,
        #[trigger] next.acceptors[a].accepted[i],
    ) by {
        assert(asked(e, e.acceptors[a].accepted[i]));
    }
    assert forall|packet: Packet| #[trigger] next.wire.contains(packet) implies answer_is_truthful(
        next,
        packet,
    ) && request_is_sound(next, packet) && decision_is_chosen(next, ids, packet, trusting) by {
        if e.wire.contains(packet) {
            assert(decision_is_chosen(e, ids, packet, trusting));
            match packet.message() {
                MessageView::Decision(slot, command) => {
                    if trusting {
                        let b = choose|b: Ballot| #[trigger]
                            chosen(e, ids, Proposal { slot, ballot: b, command });
                        lemma_chosen_stays(e, next, ids, Proposal { slot, ballot: b, command });
                    }
                },
                _ => {},
            }
        } else {
            assert(harmless(packet));
        }
    }
    assert forall|p: Proposal, x: Proposal|
        #[trigger] asked(next, p) && x.slot == p.slot && x.ballot.precedes(p.ballot) && x.command
            != p.command implies #[trigger] blocked(next, ids, x) by {
        assert(asked(e, p));
        assert(blocked(e, ids, x));
    }
    assert forall|name: NodeId| #[trigger] next.leaders.contains_key(name) implies leader_consistent(
        next,
        ids,
        name,
        next.leaders[name],
        trusting,
    ) by {
        lemma_leader_consistent_stays(e, next, ids, name, trusting);
    }
}

/// Frame: a leader that has not changed stays consistent while the
/// acceptors only move on and the wire only grows.
proof fn lemma_leader_consistent_stays<S>(
    e: Ensemble<S>,
    next: Ensemble<S>,
    ids: Seq<NodeId>,
    name: NodeId,
    trusting: bool,
)
    requires
        e.leaders.contains_key(name),
        leader_consistent(e, ids, name, e.leaders[name], trusting),
        forall|packet: Packet| e.wire.contains(packet) ==> next.wire.contains(packet),
        moves_on(e, next),
    ensures
        leader_consistent(next, ids, name, e.leaders[name], trusting),
{
    let l = e.leaders[name];
    assert forall|x: Proposal|
        l.active && x.ballot.precedes(l.ballot) && !(l.proposals.contains_key(x.slot)
            && l.proposals[x.slot] == x.command) implies #[trigger] blocked(next, ids, x) by {
        assert(blocked(e, ids, x));
        lemma_blocked_stays(e, next, ids, x);
    }
    if l.scout is Some {
        lemma_scout_stays(e, next, ids, l, l.scout.unwrap());
    }
    assert forall|i: int| 0 <= i < l.commanders.len() implies commander_consistent(
        next,
        ids,
        #[trigger] l.commanders[i],
        trusting,
    ) by {
        lemma_commander_stays(e, next, ids, l.commanders[i], trusting);
    }
}

/// An answer that is on the wire stays there while the wire only grows.
proof fn lemma_answer_stays_sent<S>(
    e: Ensemble<S>,
    next: Ensemble<S>,
    a: NodeId,
    b: Ballot,
    reported: Seq<Proposal>,
)
    requires
        answer_sent(e, a, b, reported),
        forall|packet: Packet| e.wire.contains(packet) ==> next.wire.contains(packet),
    ensures
        answer_sent(next, a, b, reported),
{
    let (leader, commander, named) = choose|
        leader: NodeId,
        commander: Option<(usize, Ballot)>,
        named: NodeId,
    | #[trigger]
        e.wire.contains(
            Packet::Answer {
                leader,
                commander,
                message: MessageView::Phase1b(named, a, b, reported),
            },
        );
    assert(next.wire.contains(
        Packet::Answer { leader, commander, message: MessageView::Phase1b(named, a, b, reported) },
    ));
}

/// What replicas do keeps the ensemble consistent.
proof fn lemma_replica_event<S: StateMachine>(
    e: Ensemble<S>,
    event: Event,
    ids: Seq<NodeId>,
    trusting: bool,
)
    requires
        consistent(e, ids, trusting),
        crate::paxos::ensemble::enabled(e, event),
        event is Request || event is Decide,
    ensures
        consistent(crate::paxos::ensemble::step(e, event), ids, trusting),
{
    let next = crate::paxos::ensemble::step(e, event);
    match event {
        Event::Request { replica, from, command } => {
            crate::paxos::replica::lemma_replica_sends(e.replicas[replica], from, 0, command);
            let out = crate::paxos::replica::request(e.replicas[replica], command, from).1;
            assert forall|packet: Packet|
                next.wire.contains(packet) && !e.wire.contains(packet) implies harmless(packet) by {
                let i = choose|i: int|
                    0 <= i < out.len() && packet == (Packet::Sent { from: replica, out: out[i] });
                assert(out[i].message is Propose || out[i].message is Response);
            }
            lemma_quiet_step(e, next, ids, trusting);
            assert forall|r: NodeId, slot: usize|
                next.replicas.contains_key(r) && #[trigger] next.replicas[r].decisions.contains_key(
                    slot,
                ) implies announced(next, slot, next.replicas[r].decisions[slot]) by {
                assert(e.replicas.contains_key(r));
                assert(e.replicas[r].decisions.contains_key(slot));
                lemma_stays_announced(e, next, slot, e.replicas[r].decisions[slot]);
            }
        },
        Event::Decide { replica, leader, slot, command } => {
            crate::paxos::replica::lemma_replica_sends(
                e.replicas[replica],
                crate::paxos::Endpoint { token: 0 },
                slot,
                command,
            );
            if crate::paxos::replica::decide(e.replicas[replica], slot, command) is Ok {
                let out = crate::paxos::replica::decide(
                    e.replicas[replica],
                    slot,
                    command,
                ).unwrap().1;
                assert forall|packet: Packet|
                    next.wire.contains(packet) && !e.wire.contains(packet) implies harmless(
                    packet,
                ) by {
                    let i = choose|i: int|
                        0 <= i < out.len() && packet == (Packet::Sent {
                            from: replica,
                            out: out[i],
                        });
                    assert(out[i].message is Propose || out[i].message is Response);
                }
                lemma_quiet_step(e, next, ids, trusting);
                assert(e.wire.contains(
                    Packet::Sent {
                        from: leader,
                        out: crate::paxos::leader::decision_notice(slot, command),
                    },
                ));
                assert(announced(e, slot, command));
                assert forall|r: NodeId, s: usize|
                    next.replicas.contains_key(r) && #[trigger] next.replicas[r].decisions.contains_key(
                    s) implies announced(next, s, next.replicas[r].decisions[s]) by {
                    if r == replica && s == slot && !e.replicas[replica].decisions.contains_key(
                        slot,
                    ) {
                        lemma_stays_announced(e, next, slot, command);
                    } else {
                        assert(e.replicas.contains_key(r));
                        assert(e.replicas[r].decisions.contains_key(s));
                        lemma_stays_announced(e, next, s, e.replicas[r].decisions[s]);
                    }
                }
            }
        },
        _ => {},
    }
}

/// A decision that is on the wire stays there while the wire only grows.
proof fn lemma_stays_announced<S>(
    e: Ensemble<S>,
    next: Ensemble<S>,
    slot: usize,
    command: Command,
)
    requires
        announced(e, slot, command),
        forall|packet: Packet| e.wire.contains(packet) ==> next.wire.contains(packet),
    ensures
        announced(next, slot, command),
{
    let leader = choose|leader: NodeId| #[trigger]
        e.wire.contains(
            Packet::Sent {
                from: leader,
                out: crate::paxos::leader::decision_notice(slot, command),
            },
        );
    assert(next.wire.contains(
        Packet::Sent { from: leader, out: crate::paxos::leader::decision_notice(slot, command) },
    ));
}

/// With the wire grown and the replicas as they were, what replicas hold
/// as decided is still announced.
proof fn lemma_replicas_stay<S>(e: Ensemble<S>, next: Ensemble<S>)
    requires
        replicas_consistent(e),
        next.replicas == e.replicas,
        forall|packet: Packet| e.wire.contains(packet) ==> next.wire.contains(packet),
    ensures
        replicas_consistent(next),
{
    assert forall|r: NodeId, slot: usize|
        next.replicas.contains_key(r) && #[trigger] next.replicas[r].decisions.contains_key(
            slot,
        ) implies announced(next, slot, next.replicas[r].decisions[slot]) by {
        lemma_stays_announced(e, next, slot, e.replicas[r].decisions[slot]);
    }
}

/// What acceptors do keeps the ensemble consistent.
proof fn lemma_acceptor_event<S: StateMachine>(
    e: Ensemble<S>,
    event: Event,
    ids: Seq<NodeId>,
    trusting: bool,
)
    requires
        consistent(e, ids, trusting),
        crate::paxos::ensemble::enabled(e, event),
        event is Ask,
    ensures
        consistent(crate::paxos::ensemble::step(e, event), ids, trusting),
{
    let next = crate::paxos::ensemble::step(e, event);
    match event {
        Event::Ask { acceptor, leader, message } => {
            let before = e.acceptors[acceptor];
            let (after, answer) = crate::paxos::acceptor::acceptor_step(before, message);
            crate::paxos::acceptor::lemma_promise_never_lowers(before, message);
            assert(moves_on(e, next)) by {
                assert forall|a: NodeId, p: Proposal|
                    e.acceptors.contains_key(a) && #[trigger] passed(
                        e.acceptors[a],
                        p,
                    ) implies passed(next.acceptors[a], p) by {
                    if a == acceptor {
                        lemma_acceptor_moves_on(before, message, p);
                    }
                }
                assert forall|a: NodeId, p: Proposal|
                    e.acceptors.contains_key(a) && #[trigger] holds(
                        e.acceptors[a].accepted,
                        p,
                    ) implies holds(next.acceptors[a].accepted, p) by {
                    if a == acceptor {
                        lemma_acceptor_moves_on(before, message, p);
                    }
                }
            }
            assert forall|p: Proposal| #[trigger] asked(next, p) implies asked(e, p) by {}
            let request = Packet::Sent {
                from: leader,
                out: OutboundView {
                    to: if message is Phase1a {
                        Destination::Node(acceptor)
                    } else {
                        Destination::Acceptors
                    },
                    message,
                },
            };
            assert(e.wire.contains(request));
            assert(request_is_sound(e, request));
            assert(acceptors_consistent(next, ids)) by {
                assert forall|a: NodeId, i: int|
                    next.acceptors.contains_key(a) && 0 <= i < next.acceptors[a].accepted.len() implies asked(
                    next,
                    #[trigger] next.acceptors[a].accepted[i],
                ) by {
                    if a == acceptor && i >= before.accepted.len() {
                    } else {
                        assert(asked(e, e.acceptors[a].accepted[i]));
                    }
                }
            }
            assert(wire_consistent(next, ids, trusting)) by {
                assert forall|packet: Packet| #[trigger] next.wire.contains(packet) implies answer_is_truthful(
                    next,
                    packet,
                ) && request_is_sound(next, packet) && decision_is_chosen(next, ids, packet, trusting) by {
                    if e.wire.contains(packet) {
                        assert(answer_is_truthful(e, packet));
                        assert(decision_is_chosen(e, ids, packet, trusting));
                        match packet {
                            Packet::Answer {
                                message: MessageView::Phase1b(_, a, b, reported),
                                ..
                            } => {
                                if a == acceptor {
                                    lemma_truthful_stays(before, message, b, reported);
                                }
                            },
                            _ => {},
                        }
                        match packet.message() {
                            MessageView::Decision(slot, command) => {
                                if trusting {
                                    let b = choose|b: Ballot| #[trigger]
                                        chosen(e, ids, Proposal { slot, ballot: b, command });
                                    lemma_chosen_stays(
                                        e,
                                        next,
                                        ids,
                                        Proposal { slot, ballot: b, command },
                                    );
                                }
                            },
                            _ => {},
                        }
                    } else {
                        match message {
                            MessageView::Phase1a(target, wanted) => {
                                lemma_answer_is_truthful(before, target, wanted);
                            },
                            _ => {},
                        }
                    }
                }
            }
            assert(safe(next, ids)) by {
                assert forall|p: Proposal, x: Proposal|
                    #[trigger] asked(next, p) && x.slot == p.slot && x.ballot.precedes(p.ballot)
                        && x.command != p.command implies #[trigger] blocked(next, ids, x) by {
                    assert(asked(e, p));
                    assert(blocked(e, ids, x));
                    lemma_blocked_stays(e, next, ids, x);
                }
            }
            assert(leaders_consistent(next, ids, trusting)) by {
                assert forall|name: NodeId| #[trigger] next.leaders.contains_key(name) implies leader_consistent(
                    next,
                    ids,
                    name,
                    next.leaders[name],
                    trusting,
                ) by {
                    lemma_leader_consistent_stays(e, next, ids, name, trusting);
                }
            }
            lemma_replicas_stay(e, next);
        },
        _ => {},
    }
}

/// Frame: when one leader has changed and has sent more, the acceptors,
/// the replicas, the other leaders and what was on the wire stay
/// consistent, but for what speaks of that leader.
proof fn lemma_leader_frame<S>(
    e: Ensemble<S>,
    next: Ensemble<S>,
    ids: Seq<NodeId>,
    name: NodeId,
    trusting: bool,
)
    requires
        consistent(e, ids, trusting),
        next.acceptors == e.acceptors,
        next.replicas == e.replicas,
        e.leaders.contains_key(name),
        next.leaders == e.leaders.insert(name, next.leaders[name]),
        forall|packet: Packet| e.wire.contains(packet) ==> next.wire.contains(packet),
        forall|packet: Packet|
            next.wire.contains(packet) && !e.wire.contains(packet) ==> sent_from(packet, name),
    ensures
        moves_on(e, next),
        acceptors_consistent(next, ids),
        replicas_consistent(next),
        forall|other: NodeId|
            other != name && #[trigger] next.leaders.contains_key(other) ==> leader_consistent(
                next,
                ids,
                other,
                next.leaders[other],
                trusting,
            ),
        forall|packet: Packet| #[trigger]
            e.wire.contains(packet) ==> answer_is_truthful(next, packet) && decision_is_chosen(
                next,
                ids,
                packet,
                trusting,
            ) && (!sent_from(packet, name) ==> request_is_sound(next, packet)),
        forall|x: Proposal| #[trigger] blocked(e, ids, x) ==> blocked(next, ids, x),
        forall|p: Proposal| asked(e, p) ==> asked(next, p),
{
    assert(moves_on(e, next));
    assert forall|a: NodeId, i: int|
        next.acceptors.contains_key(a) && 0 <= i < next.acceptors[a].accepted.len() implies asked(
        next,
        #[trigger] next.acceptors[a].accepted[i],
    ) by {
        assert(asked(e, e.acceptors[a].accepted[i]));
    }
    lemma_replicas_stay(e, next);
    assert forall|other: NodeId|
        other != name && #[trigger] next.leaders.contains_key(other) implies leader_consistent(
        next,
        ids,
        other,
        next.leaders[other],
        trusting,
    ) by {
        assert(e.leaders.contains_key(other));
        lemma_leader_consistent_stays(e, next, ids, other, trusting);
    }
    assert forall|packet: Packet| #[trigger] e.wire.contains(packet) implies answer_is_truthful(
        next,
        packet,
    ) && decision_is_chosen(next, ids, packet, trusting) && (!sent_from(packet, name) ==> request_is_sound(
        next,
        packet,
    )) by {
        assert(answer_is_truthful(e, packet));
        assert(request_is_sound(e, packet));
        assert(decision_is_chosen(e, ids, packet, trusting));
        match packet.message() {
            MessageView::Decision(slot, command) => {
                if trusting {
                    let b = choose|b: Ballot| #[trigger]
                        chosen(e, ids, Proposal { slot, ballot: b, command });
                    lemma_chosen_stays(e, next, ids, Proposal { slot, ballot: b, command });
                }
            },
            _ => {},
        }
    }
    assert forall|x: Proposal| #[trigger] blocked(e, ids, x) implies blocked(next, ids, x) by {
        lemma_blocked_stays(e, next, ids, x);
    }
}

/// The commander that a leader starts is consistent once its request is
/// on the wire.
proof fn lemma_new_commander_consistent<S>(
    e: Ensemble<S>,
    ids: Seq<NodeId>,
    name: NodeId,
    p: Proposal,
    trusting: bool,
)
    requires
        ids.no_duplicates(),
        asked(e, p),
    ensures
        commander_consistent(e, ids, crate::paxos::leader::new_commander(name, p, ids), trusting),
{
    crate::paxos::leader::lemma_distinct(ids, ids.len() as int);
    assert(ids.take(ids.len() as int) =~= ids);
    let c = crate::paxos::leader::new_commander(name, p, ids);
    assert(c.waiting == ids);
}

/// A leader that takes a proposal keeps the ensemble consistent.
proof fn lemma_propose_event<S: StateMachine>(
    e: Ensemble<S>,
    event: Event,
    ids: Seq<NodeId>,
    trusting: bool,
)
    requires
        consistent(e, ids, trusting),
        crate::paxos::ensemble::enabled(e, event),
        event is Propose,
    ensures
        consistent(crate::paxos::ensemble::step(e, event), ids, trusting),
{
    let next = crate::paxos::ensemble::step(e, event);
    match event {
        Event::Propose { leader, sender, slot, command } => {
            let l = e.leaders[leader];
            let (after, out) = crate::paxos::leader::leader_propose(l, slot, command);
            assert(leader_consistent(e, ids, leader, l, trusting));
            crate::paxos::leader::lemma_propose_wf(l, slot, command);
            let p = Proposal { slot, ballot: l.ballot, command };
            let request = Packet::Sent {
                from: leader,
                out: crate::paxos::leader::commander_request(leader, p),
            };
            let fresh = !l.proposals.contains_key(slot) && l.active;
            assert forall|packet: Packet|
                next.wire.contains(packet) && !e.wire.contains(packet) implies fresh && packet
                == request by {
                let i = choose|i: int|
                    0 <= i < out.len() && packet == (Packet::Sent { from: leader, out: out[i] });
            }
            lemma_leader_frame(e, next, ids, leader, trusting);
            assert forall|q: Proposal| #[trigger] asked(next, q) implies asked(e, q) || (fresh
                && q == p) by {
                let packet = Packet::Sent {
                    from: q.ballot.leader_id,
                    out: crate::paxos::leader::commander_request(q.ballot.leader_id, q),
                };
                if !e.wire.contains(packet) {
                    assert(packet == request);
                }
            }
            if fresh {
                assert(out[0] == crate::paxos::leader::commander_request(leader, p));
                assert(next.wire.contains(request));
                assert(asked(next, p));
            }
            // No request for this slot under this ballot was on the wire.
            assert forall|q: Proposal| fresh && asked(e, q) && q.same_key(p) implies false by {
                let packet = Packet::Sent {
                    from: q.ballot.leader_id,
                    out: crate::paxos::leader::commander_request(q.ballot.leader_id, q),
                };
                assert(request_is_sound(e, packet));
                crate::paxos::lemma_ballot_order_is_strict(q.ballot, l.ballot);
            }
            assert(wire_consistent(next, ids, trusting)) by {
                assert forall|packet: Packet| #[trigger] next.wire.contains(packet) implies answer_is_truthful(
                    next,
                    packet,
                ) && request_is_sound(next, packet) && decision_is_chosen(next, ids, packet, trusting) by {
                    if e.wire.contains(packet) {
                        assert(request_is_sound(e, packet));
                    } else {
                        assert(packet == request);
                    }
                }
            }
            assert(one_command(next)) by {
                assert forall|q1: Proposal, q2: Proposal|
                    #[trigger] asked(next, q1) && #[trigger] asked(next, q2) && q1.same_key(
                        q2,
                    ) implies q1.command == q2.command by {
                    if asked(e, q1) && asked(e, q2) {
                    } else if asked(e, q1) {
                        assert(q1.same_key(p));
                    } else if asked(e, q2) {
                        assert(q2.same_key(p));
                    }
                }
            }
            assert(leader_is_safe(next, ids, after)) by {
                assert forall|x: Proposal|
                    after.active && x.ballot.precedes(after.ballot) && !(
                    after.proposals.contains_key(x.slot) && after.proposals[x.slot]
                        == x.command) implies #[trigger] blocked(next, ids, x) by {
                    assert(blocked(e, ids, x));
                }
            }
            assert(safe(next, ids)) by {
                assert forall|q: Proposal, x: Proposal|
                    #[trigger] asked(next, q) && x.slot == q.slot && x.ballot.precedes(q.ballot)
                        && x.command != q.command implies #[trigger] blocked(next, ids, x) by {
                    if asked(e, q) {
                        assert(blocked(e, ids, x));
                    } else {
                        assert(blocked(e, ids, x));
                    }
                }
            }
            assert(leader_consistent(next, ids, leader, after, trusting)) by {
                if after.scout is Some {
                    let s = after.scout.unwrap();
                    assert(l.scout == Some(s));
                    assert(scout_consistent(e, ids, l, s));
                    lemma_scout_stays(e, next, ids, l, s);
                    assert(scout_consistent(next, ids, after, s));
                }
                assert forall|i: int| 0 <= i < after.commanders.len() implies commander_consistent(
                    next,
                    ids,
                    #[trigger] after.commanders[i],
                    trusting,
                ) by {
                    if i < l.commanders.len() {
                        assert(after.commanders[i] == l.commanders[i]);
                        assert(commander_consistent(e, ids, l.commanders[i], trusting));
                        lemma_commander_stays(e, next, ids, l.commanders[i], trusting);
                    } else {
                        lemma_new_commander_consistent(next, ids, leader, p, trusting);
                    }
                }
            }
            assert(leaders_consistent(next, ids, trusting)) by {
                assert forall|name: NodeId| #[trigger] next.leaders.contains_key(name) implies leader_consistent(
                    next,
                    ids,
                    name,
                    next.leaders[name],
                    trusting,
                ) by {
                    if name != leader {
                    }
                }
            }
        },
        _ => {},
    }
}

/// A leader that changes without sending a second-phase request keeps the
/// ensemble consistent, provided that it keeps its name, its acceptors
/// and the leader of its ballot, does not lower its ballot, gains no
/// commander, stays safe and consistent with its scout, announces only
/// what was chosen, and leaves the requests that it sent earlier sound.
proof fn lemma_leader_settles<S>(
    e: Ensemble<S>,
    ids: Seq<NodeId>,
    name: NodeId,
    after: LeaderView,
    out: Seq<OutboundView>,
    trusting: bool,
)
    requires
        consistent(e, ids, trusting),
        e.leaders.contains_key(name),
        forall|i: int| 0 <= i < out.len() ==> settled(e, ids, (#[trigger] out[i]).message, trusting),
        after.id == name,
        after.acceptors == ids,
        after.ballot.leader_id == name,
        crate::paxos::leader::leader_wf(after),
        leader_is_safe(e, ids, after),
        after.scout matches Some(s) ==> scout_consistent(e, ids, after, s),
        forall|i: int|
            0 <= i < after.commanders.len() ==> commander_consistent(
                e,
                ids,
                #[trigger] after.commanders[i],
                trusting,
            ),
        forall|q: Proposal|
            #[trigger] asked(e, q) && q.ballot.leader_id == name ==> {
                ||| q.ballot.precedes(after.ballot)
                ||| (q.ballot == after.ballot && after.scout is None && (after.active
                    ==> after.proposals.contains_key(q.slot) && after.proposals[q.slot]
                    == q.command))
            },
    ensures
        consistent(with_leader(e, name, after, out), ids, trusting),
{
    let next = with_leader(e, name, after, out);
    let l = e.leaders[name];
    assert(leader_consistent(e, ids, name, l, trusting));
    assert forall|packet: Packet|
        next.wire.contains(packet) && !e.wire.contains(packet) implies sent_from(packet, name)
        && settled(e, ids, packet.message(), trusting) by {
        let i = choose|i: int|
            0 <= i < out.len() && packet == (Packet::Sent { from: name, out: out[i] });
        assert(settled(e, ids, out[i].message, trusting));
    }
    lemma_leader_frame(e, next, ids, name, trusting);
    assert forall|q: Proposal| #[trigger] asked(next, q) implies asked(e, q) by {
        let packet = Packet::Sent {
            from: q.ballot.leader_id,
            out: crate::paxos::leader::commander_request(q.ballot.leader_id, q),
        };
        assert(!settled(e, ids, packet.message(), trusting));
    }
    assert(wire_consistent(next, ids, trusting)) by {
        assert forall|packet: Packet| #[trigger] next.wire.contains(packet) implies answer_is_truthful(
            next,
            packet,
        ) && request_is_sound(next, packet) && decision_is_chosen(next, ids, packet, trusting) by {
            if e.wire.contains(packet) {
                assert(request_is_sound(e, packet));
                match packet {
                    Packet::Sent { from, out } => match out.message {
                        MessageView::Phase2a(named, p) => {
                            if from == name {
                                assert(packet == (Packet::Sent {
                                    from: p.ballot.leader_id,
                                    out: crate::paxos::leader::commander_request(
                                        p.ballot.leader_id,
                                        p,
                                    ),
                                }));
                                assert(asked(e, p));
                            }
                        },
                        _ => {},
                    },
                    _ => {},
                }
            } else {
                assert(settled(e, ids, packet.message(), trusting));
                match packet.message() {
                    MessageView::Decision(slot, command) => {
                        if trusting {
                            let b = choose|b: Ballot| #[trigger]
                                chosen(e, ids, Proposal { slot, ballot: b, command });
                            lemma_chosen_stays(e, next, ids, Proposal { slot, ballot: b, command });
                        }
                    },
                    _ => {},
                }
            }
        }
    }
    assert(one_command(next)) by {
        assert forall|q1: Proposal, q2: Proposal|
            #[trigger] asked(next, q1) && #[trigger] asked(next, q2) && q1.same_key(
                q2,
            ) implies q1.command == q2.command by {
            assert(asked(e, q1) && asked(e, q2));
        }
    }
    assert(safe(next, ids)) by {
        assert forall|q: Proposal, x: Proposal|
            #[trigger] asked(next, q) && x.slot == q.slot && x.ballot.precedes(q.ballot)
                && x.command != q.command implies #[trigger] blocked(next, ids, x) by {
            assert(asked(e, q));
            assert(blocked(e, ids, x));
        }
    }
    assert(leader_consistent(next, ids, name, after, trusting)) by {
        assert forall|x: Proposal|
            after.active && x.ballot.precedes(after.ballot) && !(after.proposals.contains_key(
                x.slot,
            ) && after.proposals[x.slot] == x.command) implies #[trigger] blocked(
            next,
            ids,
            x,
        ) by {
            assert(blocked(e, ids, x));
        }
        if after.scout is Some {
            lemma_scout_stays(e, next, ids, after, after.scout.unwrap());
        }
        assert forall|i: int| 0 <= i < after.commanders.len() implies commander_consistent(
            next,
            ids,
            #[trigger] after.commanders[i],
            trusting,
        ) by {
            lemma_commander_stays(e, next, ids, after.commanders[i], trusting);
        }
    }
    assert(leaders_consistent(next, ids, trusting)) by {
        assert forall|other: NodeId| #[trigger] next.leaders.contains_key(other) implies leader_consistent(
            next,
            ids,
            other,
            next.leaders[other],
            trusting,
        ) by {
            if other != name {
            }
        }
    }
}

/// The requests that a leader sent are sound as the ensemble stands.
proof fn lemma_sent_requests_are_sound<S>(
    e: Ensemble<S>,
    ids: Seq<NodeId>,
    name: NodeId,
    trusting: bool,
)
    requires
        consistent(e, ids, trusting),
        e.leaders.contains_key(name),
    ensures
        forall|q: Proposal|
            #[trigger] asked(e, q) && q.ballot.leader_id == name ==> {
                let l = e.leaders[name];
                ||| q.ballot.precedes(l.ballot)
                ||| (q.ballot == l.ballot && l.scout is None && (l.active
                    ==> l.proposals.contains_key(q.slot) && l.proposals[q.slot] == q.command))
            },
{
    assert forall|q: Proposal| #[trigger] asked(e, q) && q.ballot.leader_id == name implies {
        let l = e.leaders[name];
        ||| q.ballot.precedes(l.ballot)
        ||| (q.ballot == l.ballot && l.scout is None && (l.active ==> l.proposals.contains_key(
            q.slot,
        ) && l.proposals[q.slot] == q.command))
    } by {
        let packet = Packet::Sent {
            from: q.ballot.leader_id,
            out: crate::paxos::leader::commander_request(q.ballot.leader_id, q),
        };
        assert(request_is_sound(e, packet));
    }
}

/// A preemption keeps the ensemble consistent, also for a leader that has
/// just lost some of its commanders or its scout.
proof fn lemma_preemption<S>(
    e: Ensemble<S>,
    ids: Seq<NodeId>,
    name: NodeId,
    idle: LeaderView,
    higher: Ballot,
    trusting: bool,
)
    requires
        consistent(e, ids, trusting),
        e.leaders.contains_key(name),
        idle == (LeaderView {
            scout: idle.scout,
            commanders: idle.commanders,
            ..e.leaders[name]
        }),
        idle.scout is Some ==> idle.scout == e.leaders[name].scout,
        crate::paxos::leader::leader_wf(idle),
        forall|i: int|
            0 <= i < idle.commanders.len() ==> e.leaders[name].commanders.contains(
                #[trigger] idle.commanders[i],
            ),
    ensures
        consistent(
            with_leader(
                e,
                name,
                crate::paxos::leader::leader_preempted(idle, higher).0,
                crate::paxos::leader::leader_preempted(idle, higher).1,
            ),
            ids,
            trusting,
        ),
{
    let l = e.leaders[name];
    let (after, out) = crate::paxos::leader::leader_preempted(idle, higher);
    assert(leader_consistent(e, ids, name, l, trusting));
    lemma_sent_requests_are_sound(e, ids, name, trusting);
    crate::paxos::leader::lemma_preempted_wf(idle, higher);
    crate::paxos::leader::lemma_distinct(ids, ids.len() as int);
    assert(ids.take(ids.len() as int) =~= ids);
    if l.ballot.precedes(higher) && higher.num < usize::MAX {
        let rebased = Ballot { num: (higher.num + 1) as usize, leader_id: l.id };
        assert(higher.precedes(rebased));
        crate::paxos::lemma_ballot_order_is_transitive(l.ballot, higher, rebased);
        assert forall|q: Proposal|
            #[trigger] asked(e, q) && q.ballot.leader_id == name implies q.ballot.precedes(
            rebased,
        ) by {
            if q.ballot != l.ballot {
                crate::paxos::lemma_ballot_order_is_transitive(q.ballot, l.ballot, rebased);
            }
        }
    }
    assert(leader_is_safe(e, ids, after)) by {
        assert forall|x: Proposal|
            after.active && x.ballot.precedes(after.ballot) && !(after.proposals.contains_key(
                x.slot,
            ) && after.proposals[x.slot] == x.command) implies #[trigger] blocked(e, ids, x) by {
            assert(l.active);
            assert(blocked(e, ids, x));
        }
    }
    if after.scout is Some {
        let s = after.scout.unwrap();
        if l.ballot.precedes(higher) {
            assert(s.waiting == ids);
            assert(s.pvalues.len() == 0);
        } else {
            assert(l.scout == Some(s));
            assert(scout_consistent(e, ids, l, s));
        }
        assert(scout_consistent(e, ids, after, s));
    }
    assert forall|i: int| 0 <= i < after.commanders.len() implies commander_consistent(
        e,
        ids,
        #[trigger] after.commanders[i],
        trusting,
    ) by {
        assert(after.commanders[i] == idle.commanders[i]);
        assert(l.commanders.contains(idle.commanders[i]));
        let j = choose|j: int| 0 <= j < l.commanders.len() && l.commanders[j] == idle.commanders[i];
        assert(commander_consistent(e, ids, l.commanders[j], trusting));
    }
    lemma_leader_settles(e, ids, name, after, out, trusting);
}

/// A commander that counts an answer stays consistent. With `trusting`,
/// the answer has to come from an acceptor that has accepted, and what the
/// commander then decides, a quorum has accepted.
proof fn lemma_commander_counts<S>(
    e: Ensemble<S>,
    ids: Seq<NodeId>,
    c: CommanderView,
    acceptor: NodeId,
    reported: Ballot,
    trusting: bool,
)
    requires
        consistent(e, ids, trusting),
        commander_consistent(e, ids, c, trusting),
        crate::paxos::leader::commander_wf(c),
        trusting && reported == c.proposal.ballot ==> e.acceptors.contains_key(acceptor)
            && accepted_under(
            e.acceptors[acceptor].accepted,
            c.proposal.slot,
            c.proposal.ballot,
        ),
    ensures
        commander_consistent(
            e,
            ids,
            crate::paxos::leader::commander_step(c, acceptor, reported).0,
            trusting,
        ),
        trusting && crate::paxos::leader::commander_step(c, acceptor, reported).1 is Decided
            ==> chosen(e, ids, c.proposal),
{
    let (next, verdict) = crate::paxos::leader::commander_step(c, acceptor, reported);
    crate::paxos::leader::lemma_strike(c.waiting, acceptor, c.waiting.len() as int);
    if reported == c.proposal.ballot {
        assert forall|x: NodeId| #[trigger] next.waiting.contains(x) implies ids.contains(x) by {
            assert(c.waiting.contains(x));
        }
    }
    if trusting && reported == c.proposal.ballot {
        let accepted = e.acceptors[acceptor].accepted;
        let i = choose|i: int|
            0 <= i < accepted.len() && (#[trigger] accepted[i]).slot == c.proposal.slot
                && accepted[i].ballot == c.proposal.ballot;
        assert(asked(e, accepted[i]));
        assert(accepted[i].same_key(c.proposal));
        assert(accepted[i] == c.proposal);
        assert(holds(accepted, c.proposal));
        assert forall|a: NodeId| ids.contains(a) && !next.waiting.contains(a) implies #[trigger] accepted_by(
            e,
            a,
            c.proposal,
        ) by {
            if a != acceptor {
                assert(!c.waiting.contains(a));
                assert(accepted_by(e, a, c.proposal));
            }
        }
        if verdict is Decided {
            lemma_answered_is_quorum(ids, next.waiting);
            let q = answered(ids, next.waiting);
            assert forall|a: NodeId| #[trigger] q.contains(a) implies e.acceptors.contains_key(a)
                && holds(e.acceptors[a].accepted, c.proposal) by {
                assert(accepted_by(e, a, c.proposal));
            }
        }
    }
}

/// The decision of what a quorum has accepted is settled.
proof fn lemma_chosen_is_settled<S>(e: Ensemble<S>, ids: Seq<NodeId>, p: Proposal, trusting: bool)
    requires
        trusting ==> chosen(e, ids, p),
    ensures
        settled(e, ids, MessageView::Decision(p.slot, p.command), trusting),
{
    if trusting {
        assert(p == (Proposal { slot: p.slot, ballot: p.ballot, command: p.command }));
        assert(chosen(e, ids, Proposal { slot: p.slot, ballot: p.ballot, command: p.command }));
    }
}

/// A leader that takes a second-phase answer keeps the ensemble
/// consistent; with `trusting`, if the answer is honest.
proof fn lemma_phase2b_event<S: StateMachine>(
    e: Ensemble<S>,
    event: Event,
    ids: Seq<NodeId>,
    trusting: bool,
)
    requires
        consistent(e, ids, trusting),
        crate::paxos::ensemble::enabled(e, event),
        trusting ==> honest(e, event),
        event matches Event::Answer { commander: Some(_), message: MessageView::Phase2b(..), .. },
    ensures
        consistent(crate::paxos::ensemble::step(e, event), ids, trusting),
{
    match event {
        Event::Answer {
            leader,
            commander: Some((slot, ballot)),
            message: MessageView::Phase2b(_, acceptor, reported),
        } => {
            let l = e.leaders[leader];
            assert(leader_consistent(e, ids, leader, l, trusting));
            lemma_sent_requests_are_sound(e, ids, leader, trusting);
            let (after, out) = crate::paxos::leader::leader_phase2b(
                l,
                slot,
                ballot,
                acceptor,
                reported,
            );
            assert(crate::paxos::ensemble::step(e, event) == with_leader(e, leader, after, out));
            if l.scout is Some {
                assert(scout_consistent(e, ids, l, l.scout.unwrap()));
            }
            crate::paxos::leader::lemma_phase2b_wf(l, slot, ballot, acceptor, reported);
            let at = crate::paxos::leader::commander_at(
                l.commanders,
                slot,
                ballot,
                l.commanders.len() as int,
            );
            crate::paxos::leader::lemma_commander_at(
                l.commanders,
                slot,
                ballot,
                l.commanders.len() as int,
            );
            if at < 0 {
                lemma_leader_settles(e, ids, leader, after, out, trusting);
            } else {
                let c = l.commanders[at];
                assert(commander_consistent(e, ids, c, trusting));
                assert(crate::paxos::leader::commander_wf(c));
                let (stepped, verdict) = crate::paxos::leader::commander_step(
                    c,
                    acceptor,
                    reported,
                );
                lemma_commander_counts(e, ids, c, acceptor, reported, trusting);
                let fewer = LeaderView { commanders: l.commanders.remove(at), ..l };
                assert forall|i: int| 0 <= i < fewer.commanders.len() implies l.commanders.contains(
                    #[trigger] fewer.commanders[i],
                ) by {
                    if i < at {
                        assert(l.commanders[i] == fewer.commanders[i]);
                    } else {
                        assert(l.commanders[i + 1] == fewer.commanders[i]);
                    }
                }
                match verdict {
                    crate::paxos::leader::CommanderVerdict::Waiting => {
                        assert forall|i: int| 0 <= i < after.commanders.len() implies commander_consistent(
                            e,
                            ids,
                            #[trigger] after.commanders[i],
                            trusting,
                        ) by {
                            if i != at {
                                assert(after.commanders[i] == l.commanders[i]);
                                assert(commander_consistent(e, ids, l.commanders[i], trusting));
                            }
                        }
                        lemma_leader_settles(e, ids, leader, after, out, trusting);
                    },
                    crate::paxos::leader::CommanderVerdict::Decided(s, command) => {
                        assert(c.proposal == (Proposal {
                            slot: s,
                            ballot: c.proposal.ballot,
                            command,
                        }));
                        lemma_chosen_is_settled(e, ids, c.proposal, trusting);
                        assert(out[0].message == MessageView::Decision(s, command));
                        assert forall|i: int| 0 <= i < after.commanders.len() implies commander_consistent(
                            e,
                            ids,
                            #[trigger] after.commanders[i],
                            trusting,
                        ) by {
                            assert(l.commanders.contains(fewer.commanders[i]));
                            let j = choose|j: int|
                                0 <= j < l.commanders.len() && l.commanders[j]
                                    == fewer.commanders[i];
                            assert(commander_consistent(e, ids, l.commanders[j], trusting));
                        }
                        lemma_leader_settles(e, ids, leader, after, out, trusting);
                    },
                    crate::paxos::leader::CommanderVerdict::Preempted(higher) => {
                        crate::paxos::leader::lemma_wf_commanders_removed(l, at);
                        lemma_preemption(e, ids, leader, fewer, higher, trusting);
                    },
                }
            }
        },
        _ => {},
    }
}

/// A scout that counts an answer that is on the wire and true of its
/// acceptor stays consistent.
proof fn lemma_scout_counts<S>(
    e: Ensemble<S>,
    ids: Seq<NodeId>,
    l: LeaderView,
    s: ScoutView,
    acceptor: NodeId,
    reported: Ballot,
    accepted: Seq<Proposal>,
)
    requires
        scout_consistent(e, ids, l, s),
        answer_sent(e, acceptor, reported, accepted),
        e.acceptors.contains_key(acceptor),
        truthful(e.acceptors[acceptor], reported, accepted),
    ensures
        scout_consistent(
            e,
            ids,
            l,
            crate::paxos::leader::scout_step(s, acceptor, reported, accepted).0,
        ),
{
    let next = crate::paxos::leader::scout_step(s, acceptor, reported, accepted).0;
    if reported == s.ballot {
        crate::paxos::leader::lemma_strike(s.waiting, acceptor, s.waiting.len() as int);
        lemma_gather_extends(s.pvalues, accepted, accepted.len() as int);
        assert forall|x: NodeId| #[trigger] next.waiting.contains(x) implies ids.contains(x) by {
            assert(s.waiting.contains(x));
        }
        assert forall|a: NodeId| ids.contains(a) && !next.waiting.contains(a) implies #[trigger] answered_with(
            e,
            a,
            next.ballot,
            next.pvalues,
        ) by {
            if s.waiting.contains(a) {
                assert(a == acceptor);
                assert(covers(next.pvalues, accepted));
            } else {
                assert(answered_with(e, a, s.ballot, s.pvalues));
                let before = choose|before: Seq<Proposal>| #[trigger]
                    answer_sent(e, a, s.ballot, before) && covers(s.pvalues, before);
                assert forall|i: int| 0 <= i < before.len() implies crate::paxos::leader::holds_key(
                    next.pvalues,
                    #[trigger] before[i],
                ) by {
                    assert(crate::paxos::leader::holds_key(s.pvalues, before[i]));
                    let j = choose|j: int|
                        0 <= j < s.pvalues.len() && (#[trigger] s.pvalues[j]).same_key(before[i]);
                    assert(next.pvalues[j] == s.pvalues[j]);
                    assert(next.pvalues[j].same_key(before[i]));
                }
                assert(covers(next.pvalues, before));
            }
        }
        assert forall|i: int| 0 <= i < next.pvalues.len() implies (#[trigger] next.pvalues[i]).ballot.at_most(
            next.ballot,
        ) && accepted_somewhere(e, next.pvalues[i]) by {
            if i < s.pvalues.len() {
                assert(next.pvalues[i] == s.pvalues[i]);
            } else {
                assert(holds(accepted, next.pvalues[i]));
                let j = choose|j: int|
                    0 <= j < accepted.len() && #[trigger] accepted[j] == next.pvalues[i];
                assert(holds(e.acceptors[acceptor].accepted, accepted[j]));
                assert(accepted_by(e, acceptor, next.pvalues[i]));
            }
        }
    }
}

/// The proposal of `pvalues` that speaks for a slot is the one whose
/// command the merge takes.
proof fn lemma_speaker(pvalues: Seq<Proposal>, slot: usize) -> (k: int)
    requires
        crate::paxos::leader::has_slot(pvalues, slot),
    ensures
        0 <= k < pvalues.len(),
        pvalues[k].slot == slot,
        crate::paxos::acceptor::is_latest(pvalues, k),
        crate::paxos::leader::pmax(pvalues).contains_key(slot),
        crate::paxos::leader::pmax(pvalues)[slot] == pvalues[k].command,
{
    crate::paxos::acceptor::lemma_speaker_exists(pvalues, slot, pvalues.len() as int);
    let k = choose|k: int|
        0 <= k < pvalues.len() && (#[trigger] pvalues[k]).slot == slot
            && crate::paxos::acceptor::is_latest_within(pvalues, k, pvalues.len() as int);
    assert(crate::paxos::acceptor::is_latest(pvalues, k));
    let chosen_one = crate::paxos::leader::speaker(pvalues, slot);
    crate::paxos::acceptor::lemma_one_speaker(pvalues, k, chosen_one);
    k
}

/// Why an adoption is safe. When a quorum has answered a scout, then below
/// the scout's ballot nothing can have been chosen, or ever be, but what
/// the leader holds after it has taken over the commands of the highest
/// ballots among what the scout has gathered.
pub proof fn lemma_adoption_is_safe<S>(
    e: Ensemble<S>,
    ids: Seq<NodeId>,
    name: NodeId,
    s: ScoutView,
    x: Proposal,
    trusting: bool,
)
    requires
        consistent(e, ids, trusting),
        e.leaders.contains_key(name),
        e.leaders[name].scout is Some,
        scout_consistent(e, ids, e.leaders[name], s),
        crate::paxos::leader::scout_wf(s),
        crate::paxos::leader::reached_quorum(s.total, s.waiting),
        x.ballot.precedes(s.ballot),
        !(e.leaders[name].proposals.union_prefer_right(
            crate::paxos::leader::pmax(s.pvalues),
        ).contains_key(x.slot) && e.leaders[name].proposals.union_prefer_right(
            crate::paxos::leader::pmax(s.pvalues),
        )[x.slot] == x.command),
    ensures
        blocked(e, ids, x),
{
    let l = e.leaders[name];
    let b = s.ballot;
    assert(leader_consistent(e, ids, name, l, trusting));
    lemma_sent_requests_are_sound(e, ids, name, trusting);
    lemma_answered_is_quorum(ids, s.waiting);
    let q1 = answered(ids, s.waiting);
    let has = crate::paxos::leader::has_slot(s.pvalues, x.slot);
    let k = if has {
        lemma_speaker(s.pvalues, x.slot)
    } else {
        0
    };
    let m = s.pvalues[k];
    if has {
        // What speaks for the slot was asked for, under a ballot below the scout's.
        assert(accepted_somewhere(e, m));
        let holder = choose|holder: NodeId| #[trigger] accepted_by(e, holder, m);
        let i = choose|i: int|
            0 <= i < e.acceptors[holder].accepted.len() && #[trigger] e.acceptors[holder].accepted[i]
                == m;
        assert(asked(e, m));
        crate::paxos::lemma_ballot_order_is_strict(m.ballot, b);
        if m.ballot == b {
            assert(m.ballot.leader_id == name);
            assert(false);
        }
        assert(m.ballot.precedes(b));
        assert(x.command != m.command);
    }
    crate::paxos::lemma_ballot_order_is_strict(x.ballot, m.ballot);
    if has && x.ballot.precedes(m.ballot) {
        assert(blocked(e, ids, x));
    } else {
        assert forall|q: Set<NodeId>| #[trigger] is_quorum(q, ids) implies exists|a: NodeId|
            q.contains(a) && e.acceptors.contains_key(a) && #[trigger] passed(
                e.acceptors[a],
                x,
            ) by {
            lemma_quorums_meet(q, q1, ids);
            let a = choose|a: NodeId| q.contains(a) && q1.contains(a);
            assert(answered_with(e, a, b, s.pvalues));
            let reported = choose|reported: Seq<Proposal>| #[trigger]
                answer_sent(e, a, b, reported) && covers(s.pvalues, reported);
            let (to, tag, named) = choose|
                to: NodeId,
                tag: Option<(usize, Ballot)>,
                named: NodeId,
            | #[trigger]
                e.wire.contains(
                    Packet::Answer {
                        leader: to,
                        commander: tag,
                        message: MessageView::Phase1b(named, a, b, reported),
                    },
                );
            let packet = Packet::Answer {
                leader: to,
                commander: tag,
                message: MessageView::Phase1b(named, a, b, reported),
            };
            assert(answer_is_truthful(e, packet));
            let acceptor = e.acceptors[a];
            assert(truthful(acceptor, b, reported));
            let held = acceptor.ballot.unwrap();
            if b != held {
                crate::paxos::lemma_ballot_order_is_transitive(x.ballot, b, held);
            }
            assert(promised_above(acceptor.ballot, x.ballot));
            if holds(acceptor.accepted, x) {
                let j = choose|j: int|
                    0 <= j < acceptor.accepted.len() && #[trigger] acceptor.accepted[j] == x;
                assert(asked(e, acceptor.accepted[j]));
                let i = choose|i: int|
                    0 <= i < reported.len() && (#[trigger] reported[i]).slot
                        == acceptor.accepted[j].slot && acceptor.accepted[j].ballot.at_most(
                        reported[i].ballot,
                    );
                assert(crate::paxos::leader::holds_key(s.pvalues, reported[i]));
                let g = choose|g: int|
                    0 <= g < s.pvalues.len() && (#[trigger] s.pvalues[g]).same_key(reported[i]);
                assert(s.pvalues[g].slot == x.slot);
                assert(has);
                // The gathered proposal is no higher than the one that speaks.
                assert(s.pvalues[g].slot == s.pvalues[k].slot);
                crate::paxos::lemma_ballot_order_is_strict(s.pvalues[g].ballot, m.ballot);
                if x.ballot == m.ballot {
                    assert(x.same_key(m));
                    assert(false);
                } else {
                    if x.ballot != reported[i].ballot && reported[i].ballot != m.ballot {
                        crate::paxos::lemma_ballot_order_is_transitive(
                            x.ballot,
                            reported[i].ballot,
                            m.ballot,
                        );
                    }
                    assert(false);
                }
            }
            assert(passed(acceptor, x));
        }
    }
}

/// An adoption keeps the ensemble consistent.
proof fn lemma_adoption<S>(
    e: Ensemble<S>,
    ids: Seq<NodeId>,
    name: NodeId,
    s: ScoutView,
    trusting: bool,
)
    requires
        consistent(e, ids, trusting),
        e.leaders.contains_key(name),
        e.leaders[name].scout is Some,
        scout_consistent(e, ids, e.leaders[name], s),
        crate::paxos::leader::scout_wf(s),
        crate::paxos::leader::reached_quorum(s.total, s.waiting),
    ensures
        consistent(
            with_leader(
                e,
                name,
                crate::paxos::leader::leader_adopted(
                    LeaderView { scout: None, ..e.leaders[name] },
                    s.ballot,
                    s.pvalues,
                ).0,
                crate::paxos::leader::leader_adopted(
                    LeaderView { scout: None, ..e.leaders[name] },
                    s.ballot,
                    s.pvalues,
                ).1,
            ),
            ids,
            trusting,
        ),
{
    let l = e.leaders[name];
    let b = s.ballot;
    let idle = LeaderView { scout: None, ..l };
    let (after, out) = crate::paxos::leader::leader_adopted(idle, b, s.pvalues);
    let next = with_leader(e, name, after, out);
    assert(leader_consistent(e, ids, name, l, trusting));
    lemma_sent_requests_are_sound(e, ids, name, trusting);
    crate::paxos::leader::lemma_wf_frame(l, idle);
    crate::paxos::leader::lemma_adoption_merges_pmax(idle, b, s.pvalues);
    crate::paxos::leader::lemma_adopted_wf(idle, b, s.pvalues);
    let winners = crate::paxos::acceptor::latest(s.pvalues);
    crate::paxos::leader::lemma_take_over(idle, winners, winners.len() as int);
    let merged = crate::paxos::leader::take_over(idle, winners, winners.len() as int);
    let n = merged.order.len() as int;
    crate::paxos::leader::lemma_command_slots_sends(merged, b, n);
    crate::paxos::leader::lemma_command_slots(merged, b, n);
    // The proposals that the new commanders ask for.
    let wanted = |i: int|
        Proposal { slot: merged.order[i], ballot: b, command: merged.proposals[merged.order[i]] };
    assert forall|i: int| 0 <= i < n implies #[trigger] out[i]
        == crate::paxos::leader::commander_request(name, wanted(i)) && asked(next, wanted(i))
        && after.proposals.contains_key(merged.order[i]) by {
        assert(merged.order.contains(merged.order[i]));
        let packet = Packet::Sent { from: name, out: out[i] };
        assert(crate::paxos::ensemble::sent_by(name, out).contains(packet));
    }
    assert forall|packet: Packet|
        next.wire.contains(packet) && !e.wire.contains(packet) implies sent_from(packet, name)
        && exists|i: int|
        0 <= i < n && packet == (Packet::Sent {
            from: name,
            out: crate::paxos::leader::commander_request(name, #[trigger] wanted(i)),
        }) by {
        let i = choose|i: int|
            0 <= i < out.len() && packet == (Packet::Sent { from: name, out: out[i] });
        assert(out[i] == crate::paxos::leader::commander_request(name, wanted(i)));
    }
    lemma_leader_frame(e, next, ids, name, trusting);
    assert forall|q: Proposal| #[trigger] asked(next, q) implies asked(e, q) || exists|i: int|
        0 <= i < n && q == #[trigger] wanted(i) by {
        let packet = Packet::Sent {
            from: q.ballot.leader_id,
            out: crate::paxos::leader::commander_request(q.ballot.leader_id, q),
        };
        if !e.wire.contains(packet) {
            let i = choose|i: int|
                0 <= i < n && packet == (Packet::Sent {
                    from: name,
                    out: crate::paxos::leader::commander_request(name, #[trigger] wanted(i)),
                });
            assert(q == wanted(i));
        }
    }
    // No request under the scout's ballot was on the wire before.
    assert forall|q: Proposal| asked(e, q) && q.ballot == b implies false by {
        crate::paxos::lemma_ballot_order_is_strict(q.ballot, l.ballot);
    }
    assert(leader_is_safe(next, ids, after)) by {
        assert forall|x: Proposal|
            after.active && x.ballot.precedes(after.ballot) && !(after.proposals.contains_key(
                x.slot,
            ) && after.proposals[x.slot] == x.command) implies #[trigger] blocked(
            next,
            ids,
            x,
        ) by {
            lemma_adoption_is_safe(e, ids, name, s, x, trusting);
        }
    }
    assert(wire_consistent(next, ids, trusting)) by {
        assert forall|packet: Packet| #[trigger] next.wire.contains(packet) implies answer_is_truthful(
            next,
            packet,
        ) && request_is_sound(next, packet) && decision_is_chosen(next, ids, packet, trusting) by {
            if e.wire.contains(packet) {
                assert(request_is_sound(e, packet));
                match packet {
                    Packet::Sent { from, out } => match out.message {
                        MessageView::Phase2a(named, p) => {
                            if from == name {
                                assert(packet == (Packet::Sent {
                                    from: p.ballot.leader_id,
                                    out: crate::paxos::leader::commander_request(
                                        p.ballot.leader_id,
                                        p,
                                    ),
                                }));
                                assert(asked(e, p));
                            }
                        },
                        _ => {},
                    },
                    _ => {},
                }
            } else {
                let i = choose|i: int|
                    0 <= i < n && packet == (Packet::Sent {
                        from: name,
                        out: crate::paxos::leader::commander_request(name, #[trigger] wanted(i)),
                    });
                assert(after.proposals.contains_key(merged.order[i]));
            }
        }
    }
    assert(one_command(next)) by {
        assert forall|q1: Proposal, q2: Proposal|
            #[trigger] asked(next, q1) && #[trigger] asked(next, q2) && q1.same_key(
                q2,
            ) implies q1.command == q2.command by {
            if asked(e, q1) && asked(e, q2) {
            } else if asked(e, q1) || asked(e, q2) {
                assert(q1.ballot == b);
            } else {
                let i = choose|i: int| 0 <= i < n && q1 == #[trigger] wanted(i);
                let j = choose|j: int| 0 <= j < n && q2 == #[trigger] wanted(j);
                assert(merged.order[i] == merged.order[j]);
            }
        }
    }
    assert(safe(next, ids)) by {
        assert forall|q: Proposal, x: Proposal|
            #[trigger] asked(next, q) && x.slot == q.slot && x.ballot.precedes(q.ballot)
                && x.command != q.command implies #[trigger] blocked(next, ids, x) by {
            if asked(e, q) {
                assert(blocked(e, ids, x));
            } else {
                let i = choose|i: int| 0 <= i < n && q == #[trigger] wanted(i);
                assert(after.proposals.contains_key(merged.order[i]));
                assert(blocked(next, ids, x));
            }
        }
    }
    assert(leader_consistent(next, ids, name, after, trusting)) by {
        assert forall|i: int| 0 <= i < after.commanders.len() implies commander_consistent(
            next,
            ids,
            #[trigger] after.commanders[i],
            trusting,
        ) by {
            if i < l.commanders.len() {
                assert(after.commanders[i] == l.commanders[i]);
                assert(commander_consistent(e, ids, l.commanders[i], trusting));
                lemma_commander_stays(e, next, ids, l.commanders[i], trusting);
            } else {
                let j = i - l.commanders.len();
                assert(after.commanders[l.commanders.len() + j]
                    == crate::paxos::leader::new_commander(name, wanted(j), ids));
                assert(out[j] == crate::paxos::leader::commander_request(name, wanted(j)));
                assert(asked(next, wanted(j)));
                lemma_new_commander_consistent(next, ids, name, wanted(j), trusting);
            }
        }
    }
    assert(leaders_consistent(next, ids, trusting)) by {
        assert forall|other: NodeId| #[trigger] next.leaders.contains_key(other) implies leader_consistent(
            next,
            ids,
            other,
            next.leaders[other],
            trusting,
        ) by {
            if other != name {
            }
        }
    }
}

/// A leader that takes a first-phase answer keeps the ensemble consistent.
proof fn lemma_phase1b_event<S: StateMachine>(
    e: Ensemble<S>,
    event: Event,
    ids: Seq<NodeId>,
    trusting: bool,
)
    requires
        consistent(e, ids, trusting),
        crate::paxos::ensemble::enabled(e, event),
        event matches Event::Answer { commander: None, message: MessageView::Phase1b(..), .. },
    ensures
        consistent(crate::paxos::ensemble::step(e, event), ids, trusting),
{
    match event {
        Event::Answer {
            leader,
            commander: None,
            message: MessageView::Phase1b(named, acceptor, reported, accepted),
        } => {
            let l = e.leaders[leader];
            assert(leader_consistent(e, ids, leader, l, trusting));
            lemma_sent_requests_are_sound(e, ids, leader, trusting);
            let (after, out) = crate::paxos::leader::leader_phase1b(
                l,
                acceptor,
                reported,
                accepted,
            );
            assert(crate::paxos::ensemble::step(e, event) == with_leader(e, leader, after, out));
            crate::paxos::leader::lemma_phase1b_wf(l, acceptor, reported, accepted);
            let packet = Packet::Answer {
                leader,
                commander: None,
                message: MessageView::Phase1b(named, acceptor, reported, accepted),
            };
            assert(e.wire.contains(packet));
            assert(answer_is_truthful(e, packet));
            assert(answer_sent(e, acceptor, reported, accepted));
            assert forall|i: int| 0 <= i < l.commanders.len() implies commander_consistent(
                e,
                ids,
                #[trigger] l.commanders[i],
                trusting,
            ) by {}
            if l.scout is None {
                lemma_leader_settles(e, ids, leader, after, out, trusting);
            } else {
                let s = l.scout.unwrap();
                assert(scout_consistent(e, ids, l, s));
                let (stepped, verdict) = crate::paxos::leader::scout_step(
                    s,
                    acceptor,
                    reported,
                    accepted,
                );
                lemma_scout_counts(e, ids, l, s, acceptor, reported, accepted);
                crate::paxos::leader::lemma_strike(s.waiting, acceptor, s.waiting.len() as int);
                let idle = LeaderView { scout: None, ..l };
                crate::paxos::leader::lemma_wf_frame(l, idle);
                match verdict {
                    crate::paxos::leader::ScoutVerdict::Waiting => {
                        assert(scout_consistent(e, ids, after, stepped));
                        lemma_leader_settles(e, ids, leader, after, out, trusting);
                    },
                    crate::paxos::leader::ScoutVerdict::Adopted(b, pvalues) => {
                        lemma_adoption(e, ids, leader, stepped, trusting);
                    },
                    crate::paxos::leader::ScoutVerdict::Preempted(higher) => {
                        assert forall|i: int| 0 <= i < idle.commanders.len() implies l.commanders.contains(
                            #[trigger] idle.commanders[i],
                        ) by {
                            assert(l.commanders[i] == idle.commanders[i]);
                        }
                        lemma_preemption(e, ids, leader, idle, higher, trusting);
                    },
                }
            }
        },
        _ => {},
    }
}

/// An ensemble starts consistent.
proof fn lemma_initial_is_consistent<S>(e: Ensemble<S>, acceptors: Seq<NodeId>, trusting: bool)
    requires
        crate::paxos::ensemble::initial(e, acceptors),
    ensures
        consistent(e, crate::paxos::leader::distinct(acceptors), trusting),
{
    let ids = crate::paxos::leader::distinct(acceptors);
    crate::paxos::leader::lemma_distinct(acceptors, acceptors.len() as int);
    crate::paxos::leader::lemma_distinct(ids, ids.len() as int);
    assert(ids.take(ids.len() as int) =~= ids);
    assert forall|a: NodeId| #[trigger] e.acceptors.contains_key(a) <==> ids.contains(a) by {
        assert(acceptors.contains(a) <==> ids.contains(a));
    }
    // Only first-phase requests are on the wire.
    assert forall|packet: Packet| #[trigger] e.wire.contains(packet) implies harmless(packet) by {
        let l = choose|l: NodeId|
            e.leaders.contains_key(l) && crate::paxos::ensemble::sent_by(
                l,
                crate::paxos::leader::leader_start(l, acceptors).1,
            ).contains(packet);
        let out = crate::paxos::leader::leader_start(l, acceptors).1;
        let i = choose|i: int|
            0 <= i < out.len() && packet == (Packet::Sent { from: l, out: out[i] });
        assert(out[i].message is Phase1a);
    }
    assert forall|p: Proposal| asked(e, p) implies false by {
        let packet = Packet::Sent {
            from: p.ballot.leader_id,
            out: crate::paxos::leader::commander_request(p.ballot.leader_id, p),
        };
        assert(harmless(packet));
    }
    assert forall|name: NodeId| #[trigger] e.leaders.contains_key(name) implies leader_consistent(
        e,
        ids,
        name,
        e.leaders[name],
        trusting,
    ) by {
        crate::paxos::leader::lemma_leader_starts_wf(name, acceptors);
        let l = e.leaders[name];
        let s = l.scout.unwrap();
        assert(s.waiting == ids);
        assert(scout_consistent(e, ids, l, s));
    }
    assert(wire_consistent(e, ids, trusting)) by {
        assert forall|packet: Packet| #[trigger] e.wire.contains(packet) implies answer_is_truthful(
            e,
            packet,
        ) && request_is_sound(e, packet) && decision_is_chosen(e, ids, packet, trusting) by {
            assert(harmless(packet));
        }
    }
}

/// Every event that can happen keeps the ensemble consistent. With
/// `trusting`, the event has to be honest.
proof fn lemma_step_keeps_consistent<S: StateMachine>(
    e: Ensemble<S>,
    event: Event,
    ids: Seq<NodeId>,
    trusting: bool,
)
    requires
        consistent(e, ids, trusting),
        crate::paxos::ensemble::enabled(e, event),
        trusting ==> honest(e, event),
    ensures
        consistent(crate::paxos::ensemble::step(e, event), ids, trusting),
{
    match event {
        Event::Request { .. } => {
            lemma_replica_event(e, event, ids, trusting);
        },
        Event::Decide { .. } => {
            lemma_replica_event(e, event, ids, trusting);
        },
        Event::Ask { .. } => {
            lemma_acceptor_event(e, event, ids, trusting);
        },
        Event::Propose { .. } => {
            lemma_propose_event(e, event, ids, trusting);
        },
        Event::Answer { leader, commander, message } => {
            match (commander, message) {
                (Some(_), MessageView::Phase2b(..)) => {
                    lemma_phase2b_event(e, event, ids, trusting);
                },
                (None, MessageView::Phase1b(..)) => {
                    lemma_phase1b_event(e, event, ids, trusting);
                },
                _ => {
                    let l = e.leaders[leader];
                    assert(leader_consistent(e, ids, leader, l, trusting));
                    lemma_sent_requests_are_sound(e, ids, leader, trusting);
                    assert(crate::paxos::ensemble::step(e, event) == with_leader(
                        e,
                        leader,
                        l,
                        Seq::empty(),
                    ));
                    lemma_leader_settles(e, ids, leader, l, Seq::empty(), trusting);
                },
            }
        },
    }
}

/// In every run, the ensemble is consistent at every moment; with
/// `trusting`, if the events of the run are honest.
proof fn lemma_run_is_consistent<S: StateMachine>(
    states: Seq<Ensemble<S>>,
    events: Seq<Event>,
    acceptors: Seq<NodeId>,
    at: int,
    trusting: bool,
)
    requires
        crate::paxos::ensemble::is_run(states, events, acceptors),
        trusting ==> forall|i: int| 0 <= i < events.len() ==> honest(states[i], #[trigger] events[i]),
        0 <= at < states.len(),
    ensures
        consistent(states[at], crate::paxos::leader::distinct(acceptors), trusting),
    decreases at,
{
    if at == 0 {
        lemma_initial_is_consistent(states[0], acceptors, trusting);
    } else {
        lemma_run_is_consistent(states, events, acceptors, at - 1, trusting);
        assert(crate::paxos::ensemble::enabled(states[at - 1], events[at - 1]));
        assert(trusting ==> honest(states[at - 1], events[at - 1]));
        lemma_step_keeps_consistent(
            states[at - 1],
            events[at - 1],
            crate::paxos::leader::distinct(acceptors),
            trusting,
        );
    }
}

/// In every run, the proposals that acceptors have accepted for one slot
/// under one ballot carry one command, whichever acceptors they are.
pub proof fn lemma_accepted_once<S: StateMachine>(
    states: Seq<Ensemble<S>>,
    events: Seq<Event>,
    acceptors: Seq<NodeId>,
    at: int,
    a1: NodeId,
    a2: NodeId,
    p1: Proposal,
    p2: Proposal,
)
    requires
        crate::paxos::ensemble::is_run(states, events, acceptors),
        0 <= at < states.len(),
        accepted_by(states[at], a1, p1),
        accepted_by(states[at], a2, p2),
        p1.same_key(p2),
    ensures
        p1.command == p2.command,
{
    lemma_run_is_consistent(states, events, acceptors, at, false);
    let e = states[at];
    let i = choose|i: int|
        0 <= i < e.acceptors[a1].accepted.len() && #[trigger] e.acceptors[a1].accepted[i] == p1;
    let j = choose|j: int|
        0 <= j < e.acceptors[a2].accepted.len() && #[trigger] e.acceptors[a2].accepted[j] == p2;
    assert(asked(e, e.acceptors[a1].accepted[i]));
    assert(asked(e, e.acceptors[a2].accepted[j]));
}

/// In every run, the proposals that quorums have accepted for one slot
/// carry one command, whatever their ballots are.
pub proof fn lemma_chosen_once<S: StateMachine>(
    states: Seq<Ensemble<S>>,
    events: Seq<Event>,
    acceptors: Seq<NodeId>,
    at: int,
    p1: Proposal,
    p2: Proposal,
)
    requires
        crate::paxos::ensemble::is_run(states, events, acceptors),
        0 <= at < states.len(),
        chosen(states[at], crate::paxos::leader::distinct(acceptors), p1),
        chosen(states[at], crate::paxos::leader::distinct(acceptors), p2),
        p1.slot == p2.slot,
    ensures
        p1.command == p2.command,
{
    lemma_run_is_consistent(states, events, acceptors, at, false);
    lemma_chosen_agree(states[at], crate::paxos::leader::distinct(acceptors), p1, p2, false);
}

/// What an acceptor has accepted for a slot under a ballot, it keeps.
proof fn lemma_stays_accepted_under(
    a: AcceptorView,
    message: MessageView,
    slot: usize,
    ballot: Ballot,
)
    requires
        accepted_under(a.accepted, slot, ballot),
    ensures
        accepted_under(crate::paxos::acceptor::acceptor_step(a, message).0.accepted, slot, ballot),
{
    let after = crate::paxos::acceptor::acceptor_step(a, message).0;
    let i = choose|i: int|
        0 <= i < a.accepted.len() && (#[trigger] a.accepted[i]).slot == slot && a.accepted[i].ballot
            == ballot;
    assert(after.accepted[i] == a.accepted[i]);
}

/// In a consistent ensemble whose second-phase answers are backed, an
/// event that hands no second-phase request to an acceptor without a
/// promise is honest and leaves the answers backed.
proof fn lemma_promised_step<S: StateMachine>(e: Ensemble<S>, event: Event, ids: Seq<NodeId>)
    requires
        consistent(e, ids, true),
        answers_are_backed(e),
        crate::paxos::ensemble::enabled(e, event),
        promised(e, event),
    ensures
        honest(e, event),
        answers_are_backed(crate::paxos::ensemble::step(e, event)),
{
    let next = crate::paxos::ensemble::step(e, event);
    match event {
        Event::Answer { leader, commander, message } => {
            assert(answer_is_backed(e, Packet::Answer { leader, commander, message }));
        },
        _ => {},
    }
    assert forall|packet: Packet| #[trigger] next.wire.contains(packet) implies answer_is_backed(
        next,
        packet,
    ) by {
        match event {
            Event::Ask { acceptor, leader, message } => {
                let before = e.acceptors[acceptor];
                if e.wire.contains(packet) {
                    assert(answer_is_backed(e, packet));
                    match packet {
                        Packet::Answer {
                            commander: Some((slot, ballot)),
                            message: MessageView::Phase2b(_, named, reported),
                            ..
                        } => {
                            if named == acceptor && reported == ballot {
                                lemma_stays_accepted_under(before, message, slot, ballot);
                            }
                        },
                        _ => {},
                    }
                } else {
                    match message {
                        MessageView::Phase2a(_, p) => {
                            if before.ballot == Some(p.ballot) {
                                let after = crate::paxos::acceptor::after_p2(before, p);
                                assert(after.accepted[after.accepted.len() - 1] == p);
                            }
                        },
                        _ => {},
                    }
                }
            },
            Event::Request { replica, from, command } => {
                if !e.wire.contains(packet) {
                    assert(packet is Sent);
                }
            },
            Event::Decide { replica, slot, command, .. } => {
                if !e.wire.contains(packet) {
                    assert(packet is Sent);
                }
            },
            Event::Propose { leader, .. } => {
                if !e.wire.contains(packet) {
                    assert(packet is Sent);
                }
            },
            Event::Answer { leader, .. } => {
                if !e.wire.contains(packet) {
                    assert(packet is Sent);
                }
            },
        }
    }
}

/// In every run in which no second-phase request reaches an acceptor that
/// has promised nothing, the ensemble is consistent at every moment, with
/// all that holds of trusting runs, and the second-phase answers that
/// carry the commander's ballot come from acceptors that accepted.
pub proof fn lemma_promised_run_is_consistent<S: StateMachine>(
    states: Seq<Ensemble<S>>,
    events: Seq<Event>,
    acceptors: Seq<NodeId>,
    at: int,
)
    requires
        crate::paxos::ensemble::is_run(states, events, acceptors),
        forall|i: int| 0 <= i < events.len() ==> promised(states[i], #[trigger] events[i]),
        0 <= at < states.len(),
    ensures
        consistent(states[at], crate::paxos::leader::distinct(acceptors), true),
        answers_are_backed(states[at]),
    decreases at,
{
    let ids = crate::paxos::leader::distinct(acceptors);
    if at == 0 {
        lemma_initial_is_consistent(states[0], acceptors, true);
        assert forall|packet: Packet| #[trigger] states[0].wire.contains(
            packet,
        ) implies answer_is_backed(states[0], packet) by {
            let l = choose|l: NodeId|
                states[0].leaders.contains_key(l) && crate::paxos::ensemble::sent_by(
                    l,
                    crate::paxos::leader::leader_start(l, acceptors).1,
                ).contains(packet);
            assert(packet is Sent);
        }
    } else {
        lemma_promised_run_is_consistent(states, events, acceptors, at - 1);
        assert(crate::paxos::ensemble::enabled(states[at - 1], events[at - 1]));
        assert(promised(states[at - 1], events[at - 1]));
        lemma_promised_step(states[at - 1], events[at - 1], ids);
        lemma_step_keeps_consistent(states[at - 1], events[at - 1], ids, true);
    }
}

/// In every run in which no second-phase request reaches an acceptor that
/// has promised nothing, every second-phase answer that a commander counts
/// comes from an acceptor that has accepted the commander's slot under its
/// ballot.
pub proof fn lemma_counted_answers_are_honest<S: StateMachine>(
    states: Seq<Ensemble<S>>,
    events: Seq<Event>,
    acceptors: Seq<NodeId>,
    at: int,
)
    requires
        crate::paxos::ensemble::is_run(states, events, acceptors),
        forall|i: int| 0 <= i < events.len() ==> promised(states[i], #[trigger] events[i]),
        0 <= at < events.len(),
    ensures
        honest(states[at], events[at]),
{
    lemma_promised_run_is_consistent(states, events, acceptors, at);
    assert(crate::paxos::ensemble::enabled(states[at], events[at]));
    assert(promised(states[at], events[at]));
    lemma_promised_step(states[at], events[at], crate::paxos::leader::distinct(acceptors));
}

/// Agreement: in every run in which no second-phase request reaches an
/// acceptor that has promised nothing, any two replicas that hold a
/// decision for the same slot hold the same command.
pub proof fn lemma_agreement<S: StateMachine>(
    states: Seq<Ensemble<S>>,
    events: Seq<Event>,
    acceptors: Seq<NodeId>,
    at: int,
    r1: NodeId,
    r2: NodeId,
    slot: usize,
)
    requires
        crate::paxos::ensemble::is_run(states, events, acceptors),
        forall|i: int| 0 <= i < events.len() ==> promised(states[i], #[trigger] events[i]),
        0 <= at < states.len(),
        states[at].replicas.contains_key(r1),
        states[at].replicas.contains_key(r2),
        states[at].replicas[r1].decisions.contains_key(slot),
        states[at].replicas[r2].decisions.contains_key(slot),
    ensures
        states[at].replicas[r1].decisions[slot] == states[at].replicas[r2].decisions[slot],
{
    lemma_promised_run_is_consistent(states, events, acceptors, at);
    lemma_consistent_replicas_agree(
        states[at],
        crate::paxos::leader::distinct(acceptors),
        r1,
        r2,
        slot,
    );
}

} // verus!
