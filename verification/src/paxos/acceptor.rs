//! The acceptor: it keeps the highest ballot it has promised and every
//! proposal it has accepted, and answers the two phases of the protocol.

use vstd::prelude::*;
use itertools::Itertools;
use crate::node::NodeId;
use crate::paxos::Ballot;
use crate::paxos::Command;
use crate::paxos::Message;
use crate::paxos::MessageView;
use crate::paxos::Proposal;

verus! {

/// An acceptor's state: who it is, the highest ballot it has promised
/// (none at first) and every proposal it has accepted, in order of arrival.
#[derive(Debug)]
pub struct Acceptor {
    pub id: NodeId,
    pub ballot: Option<Ballot>,
    pub accepted: Vec<Proposal>,
}

/// What stands for an acceptor in contracts.
pub ghost struct AcceptorView {
    pub id: NodeId,
    pub ballot: Option<Ballot>,
    pub accepted: Seq<Proposal>,
}

impl View for Acceptor {
    type V = AcceptorView;

    open spec fn view(&self) -> AcceptorView {
        AcceptorView { id: self.id, ballot: self.ballot, accepted: self.accepted@ }
    }
}

/// No ballot of `ballots` comes after the one at position `i`.
pub open spec fn is_highest(ballots: Seq<Ballot>, i: int) -> bool {
    forall|j: int| 0 <= j < ballots.len() ==> !ballots[i].precedes(#[trigger] ballots[j])
}

/// `r` lists, in increasing order, exactly the positions of the highest
/// ballots of `ballots`.
pub open spec fn lists_highest(ballots: Seq<Ballot>, r: Seq<usize>) -> bool {
    &&& forall|k: int| 0 <= k < r.len() ==> 0 <= #[trigger] r[k] < ballots.len() && is_highest(ballots, r[k] as int)
    &&& forall|k: int, l: int| 0 <= k < l < r.len() ==> r[k] < r[l]
    &&& forall|i: int|
        0 <= i < ballots.len() && #[trigger] is_highest(ballots, i) ==> exists|k: int|
            0 <= k < r.len() && #[trigger] r[k] == i
}

/// `r` lists, in increasing order, exactly the positions of the entries of
/// `accepted` that belong to `slot`.
pub open spec fn lists_slot(accepted: Seq<Proposal>, slot: usize, r: Seq<usize>) -> bool {
    &&& forall|k: int|
        0 <= k < r.len() ==> 0 <= #[trigger] r[k] < accepted.len() && accepted[r[k] as int].slot
            == slot
    &&& forall|k: int, l: int| 0 <= k < l < r.len() ==> r[k] < r[l]
    &&& forall|i: int|
        0 <= i < accepted.len() && (#[trigger] accepted[i]).slot == slot ==> exists|k: int|
            0 <= k < r.len() && #[trigger] r[k] == i
}

/// The entry at `i` is the one that speaks for its slot: no entry of the
/// same slot has a higher ballot, and none before it has the same ballot.
pub open spec fn is_latest(accepted: Seq<Proposal>, i: int) -> bool {
    forall|j: int|
        0 <= j < accepted.len() && (#[trigger] accepted[j]).slot == accepted[i].slot ==> {
            ||| accepted[j].ballot.precedes(accepted[i].ballot)
            ||| (accepted[j].ballot == accepted[i].ballot && i <= j)
        }
}

/// The entries among the first `n` of `accepted` that speak for their slot,
/// in their order.
pub open spec fn latest_upto(accepted: Seq<Proposal>, n: int) -> Seq<Proposal>
    decreases n,
{
    if n <= 0 {
        Seq::empty()
    } else if is_latest(accepted, n - 1) {
        latest_upto(accepted, n - 1).push(accepted[n - 1])
    } else {
        latest_upto(accepted, n - 1)
    }
}

/// For each slot that occurs in `accepted`, the first of its entries with
/// the highest ballot; the entries keep their order.
pub open spec fn latest(accepted: Seq<Proposal>) -> Seq<Proposal> {
    latest_upto(accepted, accepted.len() as int)
}

/// Among the first `n` entries, the entry at `i` speaks for its slot.
pub open spec fn is_latest_within(accepted: Seq<Proposal>, i: int, n: int) -> bool {
    forall|j: int|
        0 <= j < n && (#[trigger] accepted[j]).slot == accepted[i].slot ==> {
            ||| accepted[j].ballot.precedes(accepted[i].ballot)
            ||| (accepted[j].ballot == accepted[i].ballot && i <= j)
        }
}

/// The promise an acceptor holds after it was asked to promise `asked`:
/// `asked` if it had none or a lower one, else the one it had.
pub open spec fn promise_after(held: Option<Ballot>, asked: Ballot) -> Ballot {
    match held {
        None => asked,
        Some(b) => if b.precedes(asked) {
            asked
        } else {
            b
        },
    }
}

/// The acceptor after a first-phase request for `asked`.
pub open spec fn after_p1(a: AcceptorView, asked: Ballot) -> AcceptorView {
    AcceptorView { ballot: Some(promise_after(a.ballot, asked)), ..a }
}

/// The answer to a first-phase request for `asked`: to the asking leader,
/// the promise now held and the proposals that speak for their slots.
pub open spec fn reply_p1(a: AcceptorView, asked: Ballot) -> MessageView {
    MessageView::Phase1b(
        asked.leader_id,
        a.id,
        promise_after(a.ballot, asked),
        latest(a.accepted),
    )
}

/// The acceptor after a second-phase request: the proposal is appended if
/// its ballot is the promise held, and dropped otherwise.
pub open spec fn after_p2(a: AcceptorView, proposal: Proposal) -> AcceptorView {
    if a.ballot == Some(proposal.ballot) {
        AcceptorView { accepted: a.accepted.push(proposal), ..a }
    } else {
        a
    }
}

/// The ballot in the answer to a second-phase request under `asked`: the
/// promise held, whether the request was accepted under it or not. An
/// acceptor that has promised nothing holds no ballot to answer with, and
/// hands back `asked`.
pub open spec fn answered_ballot(held: Option<Ballot>, asked: Ballot) -> Ballot {
    match held {
        Some(b) => b,
        None => asked,
    }
}

/// The answer to a second-phase request: to the asking leader, the promise
/// that the acceptor holds (see `answered_ballot`).
pub open spec fn reply_p2(a: AcceptorView, leader: NodeId, proposal: Proposal) -> MessageView {
    MessageView::Phase2b(leader, a.id, answered_ballot(a.ballot, proposal.ballot))
}

/// The acceptor after `message`, and its answer. Only the two phase
/// requests concern an acceptor; any other message changes nothing and gets
/// no answer.
pub open spec fn acceptor_step(a: AcceptorView, message: MessageView) -> (
    AcceptorView,
    Option<MessageView>,
) {
    match message {
        MessageView::Phase1a(_, asked) => (after_p1(a, asked), Some(reply_p1(a, asked))),
        MessageView::Phase2a(leader, proposal) => (
            after_p2(a, proposal),
            Some(reply_p2(a, leader, proposal)),
        ),
        _ => (a, None),
    }
}

/// Promises are ordered as ballots are, with "no promise yet" below all.
pub open spec fn promise_at_most(a: Option<Ballot>, b: Option<Ballot>) -> bool {
    match (a, b) {
        (None, _) => true,
        (Some(_), None) => false,
        (Some(x), Some(y)) => x.at_most(y),
    }
}

/// No accepted proposal has a ballot above the promise.
pub open spec fn acceptor_wf(a: AcceptorView) -> bool {
    forall|i: int|
        0 <= i < a.accepted.len() ==> promise_at_most(
            Some((#[trigger] a.accepted[i]).ballot),
            a.ballot,
        )
}

/// The positions of the highest ballots. This calls itertools'
/// `max_set_by` on the enumerated ballots with `Ballot::compare` and keeps
/// the positions of what comes back: every position whose ballot no other
/// ballot exceeds, in increasing order, and none at all only for an empty
/// input.
#[verifier::external_body]
fn highest_ballots(ballots: &Vec<Ballot>) -> (r: Vec<usize>)
    ensures
        lists_highest(ballots@, r@),
        (r.len() == 0) == (ballots.len() == 0),
{
    ballots.iter().enumerate().max_set_by(|a, b| a.1.compare(b.1)).into_iter().map(|e| e.0).collect()
}

/// The positions of the entries of `accepted` that belong to `slot`.
fn slot_members(accepted: &Vec<Proposal>, slot: usize) -> (r: Vec<usize>)
    ensures
        lists_slot(accepted@, slot, r@),
{
    let mut r: Vec<usize> = Vec::new();
    let mut j: usize = 0;
    while j < accepted.len()
        invariant
            0 <= j <= accepted.len(),
            lists_slot(accepted@.take(j as int), slot, r@),
        decreases accepted.len() - j,
    {
        let ghost before = r@;
        let ghost shorter = accepted@.take(j as int);
        let ghost longer = accepted@.take(j + 1);
        if accepted[j].slot == slot {
            r.push(j);
        }
        proof {
            assert forall|i: int| 0 <= i < longer.len() && (#[trigger] longer[i]).slot
                == slot implies exists|k: int| 0 <= k < r@.len() && #[trigger] r@[k] == i by {
                if i < j {
                    assert(shorter[i].slot == slot);
                    let k = choose|k: int| 0 <= k < before.len() && #[trigger] before[k] == i;
                    assert(r@[k] == i);
                } else {
                    assert(r@[r@.len() - 1] == i);
                }
            }
            assert forall|k: int| 0 <= k < r@.len() implies 0 <= #[trigger] r@[k] < longer.len()
                && longer[r@[k] as int].slot == slot by {
                if k < before.len() {
                    assert(before[k] == r@[k]);
                    assert(shorter[before[k] as int].slot == slot);
                }
            }
            assert forall|k: int, l: int| 0 <= k < l < r@.len() implies r@[k] < r@[l] by {
                assert(before[k] == r@[k]);
                if l < before.len() {
                    assert(before[l] == r@[l]);
                }
            }
        }
        j += 1;
    }
    assert(accepted@.take(j as int) == accepted@);
    r
}

/// The ballots of the entries of `accepted` at the positions `members`.
fn ballots_at(accepted: &Vec<Proposal>, members: &Vec<usize>) -> (r: Vec<Ballot>)
    requires
        forall|k: int| 0 <= k < members.len() ==> 0 <= #[trigger] members[k] < accepted.len(),
    ensures
        r.len() == members.len(),
        forall|k: int| 0 <= k < r.len() ==> #[trigger] r[k] == accepted[members[k] as int].ballot,
{
    let mut r: Vec<Ballot> = Vec::new();
    let mut k: usize = 0;
    while k < members.len()
        invariant
            0 <= k <= members.len(),
            r.len() == k,
            forall|l: int| 0 <= l < members.len() ==> 0 <= #[trigger] members[l] < accepted.len(),
            forall|l: int| 0 <= l < k ==> #[trigger] r[l] == accepted[members[l] as int].ballot,
        decreases members.len() - k,
    {
        r.push(accepted[members[k]].ballot);
        k += 1;
    }
    r
}

/// The proposals of `accepted` that speak for their slots: for each slot
/// the first entry with the highest ballot, the entries in their order.
pub fn latest_of(accepted: &Vec<Proposal>) -> (r: Vec<Proposal>)
    ensures
        r@ == latest(accepted@),
{
    let mut out: Vec<Proposal> = Vec::new();
    let mut i: usize = 0;
    while i < accepted.len()
        invariant
            0 <= i <= accepted.len(),
            out@ == latest_upto(accepted@, i as int),
        decreases accepted.len() - i,
    {
        let slot = accepted[i].slot;
        let members = slot_members(accepted, slot);
        assert(accepted@[i as int].slot == slot);
        let ballots = ballots_at(accepted, &members);
        let best = highest_ballots(&ballots);
        proof {
            lemma_first_highest_is_latest(accepted@, slot, members@, ballots@, best@, i as int);
        }
        if members[best[0]] == i {
            out.push(accepted[i].clone());
        }
        i += 1;
    }
    out
}

impl Acceptor {
    /// No accepted proposal has a ballot above the promise.
    pub open spec fn wf(&self) -> bool {
        acceptor_wf(self@)
    }

    /// An acceptor that has promised and accepted nothing.
    pub fn new(id: NodeId) -> (a: Acceptor)
        ensures
            a.id == id,
            a.ballot is None,
            a.accepted@ == Seq::<Proposal>::empty(),
            a.wf(),
    {
        Acceptor { id, ballot: None, accepted: Vec::new() }
    }

    /// The accepted proposals that speak for their slots: for each slot the
    /// first entry with the highest ballot.
    pub fn get_latest_accepts(&self) -> (r: Vec<Proposal>)
        ensures
            r@ == latest(self.accepted@),
    {
        latest_of(&self.accepted)
    }

    /// First phase: promise `ballot` unless a promise at least as high is
    /// held already, and answer with the promise now held and the latest
    /// accepted proposals.
    pub fn receive_p1(&mut self, ballot: Ballot) -> (reply: Message)
        ensures
            final(self)@ == after_p1(old(self)@, ballot),
            reply@ == reply_p1(old(self)@, ballot),
            promise_at_most(old(self).ballot, final(self).ballot),
            old(self).wf() ==> final(self).wf(),
    {
        proof {
            lemma_p1_raises_promise(self@, ballot);
        }
        let promised = match self.ballot {
            None => ballot,
            Some(held) => {
                proof {
                    crate::paxos::lemma_ballot_order_is_strict(held, ballot);
                }
                if ballot > held {
                    ballot
                } else {
                    held
                }
            },
        };
        self.ballot = Some(promised);
        Message::Phase1b(ballot.leader_id, self.id, promised, self.get_latest_accepts())
    }

    /// Second phase: accept `proposal` if its ballot is the promise held,
    /// and answer with the promise held either way, so that a commander
    /// under a lower ballot learns of the higher one. An acceptor that has
    /// promised nothing accepts nothing and answers with the proposal's
    /// ballot.
    pub fn receive_p2(&mut self, leader_id: NodeId, proposal: Proposal) -> (reply: Message)
        ensures
            final(self)@ == after_p2(old(self)@, proposal),
            reply@ == reply_p2(old(self)@, leader_id, proposal),
            old(self).ballot matches Some(held) ==> reply@ == MessageView::Phase2b(
                leader_id,
                old(self).id,
                held,
            ),
            old(self).ballot is None ==> reply@ == MessageView::Phase2b(
                leader_id,
                old(self).id,
                proposal.ballot,
            ),
            final(self).ballot == old(self).ballot,
            old(self).wf() ==> final(self).wf(),
    {
        let asked = proposal.ballot;
        match self.ballot {
            None => Message::Phase2b(leader_id, self.id, asked),
            Some(held) => {
                if held == asked {
                    self.accepted.push(proposal);
                }
                Message::Phase2b(leader_id, self.id, held)
            },
        }
    }

    /// Handles one inbound message. A first-phase or second-phase request
    /// is answered; any other message is dropped without a change.
    pub fn handle(&mut self, req: Message) -> (reply: Option<Message>)
        ensures
            final(self)@ == acceptor_step(old(self)@, req@).0,
            reply is Some <==> (req is Phase1a || req is Phase2a),
            reply matches Some(m) ==> Some(m@) == acceptor_step(old(self)@, req@).1,
            promise_at_most(old(self).ballot, final(self).ballot),
            old(self).wf() ==> final(self).wf(),
    {
        proof {
            lemma_promise_never_lowers(self@, req@);
        }
        match req {
            Message::Phase1a(_, ballot) => Some(self.receive_p1(ballot)),
            Message::Phase2a(leader_id, proposal) => Some(self.receive_p2(leader_id, proposal)),
            _ => None,
        }
    }
}

/// Among the entries of one slot, the first one with a highest ballot is
/// the one that speaks for the slot, and no other entry of the slot does.
proof fn lemma_first_highest_is_latest(
    accepted: Seq<Proposal>,
    slot: usize,
    members: Seq<usize>,
    ballots: Seq<Ballot>,
    best: Seq<usize>,
    i: int,
)
    requires
        0 <= i < accepted.len(),
        accepted[i].slot == slot,
        lists_slot(accepted, slot, members),
        ballots.len() == members.len(),
        forall|k: int| 0 <= k < ballots.len() ==> #[trigger] ballots[k] == accepted[members[k] as int].ballot,
        lists_highest(ballots, best),
        best.len() > 0,
    ensures
        0 <= best[0] < members.len(),
        is_latest(accepted, i) <==> members[best[0] as int] == i,
{
    let k0 = best[0] as int;
    let m0 = members[k0] as int;
    assert(is_highest(ballots, k0));
    assert forall|j: int| 0 <= j < accepted.len() && (#[trigger] accepted[j]).slot == slot implies {
        ||| accepted[j].ballot.precedes(accepted[m0].ballot)
        ||| (accepted[j].ballot == accepted[m0].ballot && m0 <= j)
    } by {
        let kj = choose|k: int| 0 <= k < members.len() && #[trigger] members[k] == j;
        assert(ballots[kj] == accepted[j].ballot);
        assert(!ballots[k0].precedes(ballots[kj]));
        crate::paxos::lemma_ballot_order_is_strict(ballots[k0], ballots[kj]);
        if ballots[kj] == ballots[k0] && kj < k0 {
            assert forall|l: int| 0 <= l < ballots.len() implies !ballots[kj].precedes(
                #[trigger] ballots[l],
            ) by {
                assert(!ballots[k0].precedes(ballots[l]));
            }
            assert(is_highest(ballots, kj));
            let l = choose|l: int| 0 <= l < best.len() && #[trigger] best[l] == kj;
            assert(false);
        }
        if ballots[kj] == ballots[k0] && j < m0 {
            assert(kj < k0);
        }
    }
    assert(is_latest(accepted, m0));
    if is_latest(accepted, i) && i != m0 {
        crate::paxos::lemma_ballot_order_is_strict(accepted[i].ballot, accepted[m0].ballot);
        assert(accepted[m0].slot == accepted[i].slot);
        assert(accepted[i].slot == accepted[m0].slot);
        assert(false);
    }
}

/// Every slot that occurs among the first `n` entries has an entry there
/// that speaks for it.
pub proof fn lemma_speaker_exists(accepted: Seq<Proposal>, slot: usize, n: int)
    requires
        0 <= n <= accepted.len(),
        exists|i: int| 0 <= i < n && (#[trigger] accepted[i]).slot == slot,
    ensures
        exists|i: int|
            0 <= i < n && (#[trigger] accepted[i]).slot == slot && is_latest_within(accepted, i, n),
    decreases n,
{
    let last = accepted[n - 1];
    if exists|i: int| 0 <= i < n - 1 && (#[trigger] accepted[i]).slot == slot {
        lemma_speaker_exists(accepted, slot, n - 1);
        let i0 = choose|i: int|
            0 <= i < n - 1 && (#[trigger] accepted[i]).slot == slot && is_latest_within(
                accepted,
                i,
                n - 1,
            );
        if last.slot == slot && accepted[i0].ballot.precedes(last.ballot) {
            assert forall|j: int| 0 <= j < n && (#[trigger] accepted[j]).slot == slot implies {
                ||| accepted[j].ballot.precedes(last.ballot)
                ||| (accepted[j].ballot == last.ballot && n - 1 <= j)
            } by {
                if j < n - 1 && accepted[j].ballot != accepted[i0].ballot {
                    crate::paxos::lemma_ballot_order_is_transitive(
                        accepted[j].ballot,
                        accepted[i0].ballot,
                        last.ballot,
                    );
                }
            }
            assert(is_latest_within(accepted, n - 1, n));
        } else {
            if last.slot == slot {
                crate::paxos::lemma_ballot_order_is_strict(accepted[i0].ballot, last.ballot);
            }
            assert(is_latest_within(accepted, i0, n));
        }
    } else {
        assert(last.slot == slot);
        assert(is_latest_within(accepted, n - 1, n));
    }
}

/// One slot has one speaker: two entries of a slot that both speak for it
/// are the same entry.
pub proof fn lemma_one_speaker(accepted: Seq<Proposal>, i: int, j: int)
    requires
        0 <= i < accepted.len(),
        0 <= j < accepted.len(),
        accepted[i].slot == accepted[j].slot,
        is_latest(accepted, i),
        is_latest(accepted, j),
    ensures
        i == j,
{
    crate::paxos::lemma_ballot_order_is_strict(accepted[i].ballot, accepted[j].ballot);
}

/// What `latest_upto` holds: each of its entries is an entry among the
/// first `n` that speaks for its slot, each such entry is in it, and they
/// come in their order. `at` gives, for each position in the result, where
/// the entry stands in `accepted`.
pub proof fn lemma_latest_entries(accepted: Seq<Proposal>, n: int) -> (at: Seq<int>)
    requires
        0 <= n <= accepted.len(),
    ensures
        at.len() == latest_upto(accepted, n).len(),
        forall|k: int|
            0 <= k < at.len() ==> 0 <= #[trigger] at[k] < n && is_latest(accepted, at[k])
                && latest_upto(accepted, n)[k] == accepted[at[k]],
        forall|k: int, l: int| 0 <= k < l < at.len() ==> at[k] < at[l],
        forall|i: int|
            0 <= i < n && #[trigger] is_latest(accepted, i) ==> exists|k: int|
                0 <= k < at.len() && #[trigger] at[k] == i,
    decreases n,
{
    if n <= 0 {
        Seq::empty()
    } else {
        let before = lemma_latest_entries(accepted, n - 1);
        if is_latest(accepted, n - 1) {
            let at = before.push(n - 1);
            assert forall|i: int| 0 <= i < n && #[trigger] is_latest(accepted, i) implies exists|
                k: int,
            | 0 <= k < at.len() && #[trigger] at[k] == i by {
                if i < n - 1 {
                    let k = choose|k: int| 0 <= k < before.len() && #[trigger] before[k] == i;
                    assert(at[k] == i);
                } else {
                    assert(at[at.len() - 1] == i);
                }
            }
            at
        } else {
            before
        }
    }
}

/// The order on promises is transitive.
pub proof fn lemma_promise_order_is_transitive(
    a: Option<Ballot>,
    b: Option<Ballot>,
    c: Option<Ballot>,
)
    requires
        promise_at_most(a, b),
        promise_at_most(b, c),
    ensures
        promise_at_most(a, c),
{
    if a is Some && b is Some && c is Some && a != b && b != c {
        crate::paxos::lemma_ballot_order_is_transitive(a.unwrap(), b.unwrap(), c.unwrap());
    }
}

/// A first-phase request never lowers the promise and keeps the acceptor
/// well formed.
pub proof fn lemma_p1_raises_promise(a: AcceptorView, asked: Ballot)
    ensures
        promise_at_most(a.ballot, after_p1(a, asked).ballot),
        promise_at_most(Some(asked), after_p1(a, asked).ballot),
        acceptor_wf(a) ==> acceptor_wf(after_p1(a, asked)),
{
    let after = after_p1(a, asked);
    if a.ballot is Some {
        crate::paxos::lemma_ballot_order_is_strict(a.ballot.unwrap(), asked);
    }
    if acceptor_wf(a) {
        assert forall|i: int| 0 <= i < after.accepted.len() implies promise_at_most(
            Some((#[trigger] after.accepted[i]).ballot),
            after.ballot,
        ) by {
            assert(promise_at_most(Some(a.accepted[i].ballot), a.ballot));
            let held = a.ballot.unwrap();
            if held.precedes(asked) && a.accepted[i].ballot != held {
                crate::paxos::lemma_ballot_order_is_transitive(a.accepted[i].ballot, held, asked);
            }
        }
    }
}

/// A second-phase request leaves the promise as it is and keeps the
/// acceptor well formed.
pub proof fn lemma_p2_keeps_promise(a: AcceptorView, proposal: Proposal)
    ensures
        after_p2(a, proposal).ballot == a.ballot,
        acceptor_wf(a) ==> acceptor_wf(after_p2(a, proposal)),
{
}

/// An acceptor that holds a promise answers a second-phase request with
/// the ballot of the request only where it accepts the request. Under any
/// other promise the answer carries that promise and nothing is accepted.
pub proof fn lemma_answer_tells(a: AcceptorView, leader: NodeId, proposal: Proposal)
    requires
        a.ballot is Some,
    ensures
        reply_p2(a, leader, proposal) == MessageView::Phase2b(leader, a.id, a.ballot.unwrap()),
        a.ballot == Some(proposal.ballot) ==> after_p2(a, proposal).accepted
            == a.accepted.push(proposal),
        a.ballot != Some(proposal.ballot) ==> after_p2(a, proposal) == a && reply_p2(
            a,
            leader,
            proposal,
        ) != MessageView::Phase2b(leader, a.id, proposal.ballot),
{
}

/// Whatever message an acceptor handles, its promise never goes down.
pub proof fn lemma_promise_never_lowers(a: AcceptorView, message: MessageView)
    ensures
        promise_at_most(a.ballot, acceptor_step(a, message).0.ballot),
        acceptor_wf(a) ==> acceptor_wf(acceptor_step(a, message).0),
{
    match message {
        MessageView::Phase1a(_, asked) => {
            lemma_p1_raises_promise(a, asked);
        },
        MessageView::Phase2a(_, proposal) => {
            lemma_p2_keeps_promise(a, proposal);
        },
        _ => {},
    }
}

/// An acceptor invents no command: what it has accepted and what it
/// reports is among the commands it had accepted and the one it was asked
/// to accept.
pub proof fn lemma_acceptor_invents_nothing(
    a: AcceptorView,
    message: MessageView,
    known: Set<Command>,
)
    requires
        crate::paxos::proposals_within(a.accepted, known),
        crate::paxos::message_within(message, known),
    ensures
        crate::paxos::proposals_within(acceptor_step(a, message).0.accepted, known),
        acceptor_step(a, message).1 matches Some(reply) ==> crate::paxos::message_within(
            reply,
            known,
        ),
{
    let at = lemma_latest_entries(a.accepted, a.accepted.len() as int);
    assert(crate::paxos::proposals_within(latest(a.accepted), known)) by {
        assert forall|i: int| 0 <= i < latest(a.accepted).len() implies known.contains(
            (#[trigger] latest(a.accepted)[i]).command,
        ) by {
            assert(latest(a.accepted)[i] == a.accepted[at[i]]);
        }
    }
}

} // verus!
