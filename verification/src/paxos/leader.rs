//! The leader and its two kinds of helpers: a scout, which asks the
//! acceptors to promise a ballot, and commanders, which each ask them to
//! accept one proposal.

use vstd::prelude::*;
use std::collections::BTreeMap;
use crate::node::NodeId;
use crate::paxos::Ballot;
use crate::paxos::Command;
use crate::paxos::Destination;
use crate::paxos::Message;
use crate::paxos::MessageView;
use crate::paxos::Outbound;
use crate::paxos::OutboundView;
use crate::paxos::Proposal;

verus! {

broadcast use vstd::laws_cmp::group_laws_cmp;

/// What stands for a scout in contracts.
pub ghost struct ScoutView {
    /// The leader the scout works for.
    pub leader: NodeId,
    /// The ballot it asks the acceptors to promise.
    pub ballot: Ballot,
    /// How many acceptors it asked.
    pub total: nat,
    /// The acceptors that have not promised its ballot yet.
    pub waiting: Seq<NodeId>,
    /// The accepted proposals that the answers reported.
    pub pvalues: Seq<Proposal>,
}

/// What a scout makes of an answer.
pub ghost enum ScoutVerdict {
    /// No quorum yet, or the answer was stale.
    Waiting,
    /// A quorum has promised the ballot; these are the accepted proposals
    /// that its members reported.
    Adopted(Ballot, Seq<Proposal>),
    /// An acceptor holds this higher ballot.
    Preempted(Ballot),
}

/// What stands for a commander in contracts.
pub ghost struct CommanderView {
    /// The leader the commander works for.
    pub leader: NodeId,
    /// The proposal it asks the acceptors to accept.
    pub proposal: Proposal,
    /// How many acceptors it asked.
    pub total: nat,
    /// The acceptors that have not answered for its ballot yet.
    pub waiting: Seq<NodeId>,
}

/// What a commander makes of an answer.
pub ghost enum CommanderVerdict {
    /// No quorum yet, or the answer was stale.
    Waiting,
    /// A quorum has answered for the ballot: the slot holds the command.
    Decided(usize, Command),
    /// An acceptor holds this higher ballot.
    Preempted(Ballot),
}

/// A leader's helper for the first phase of one ballot.
#[derive(Debug)]
pub struct Scout {
    leader: NodeId,
    ballot: Ballot,
    total: usize,
    wait_for: Vec<NodeId>,
    pvalues: Vec<Proposal>,
}

/// What a scout makes of an answer.
#[derive(Debug)]
pub enum ScoutOutcome {
    /// No quorum yet, or the answer was stale.
    Waiting,
    /// A quorum has promised the ballot; these are the accepted proposals
    /// that its members reported.
    Adopted(Ballot, Vec<Proposal>),
    /// An acceptor holds this higher ballot.
    Preempted(Ballot),
}

impl View for ScoutOutcome {
    type V = ScoutVerdict;

    open spec fn view(&self) -> ScoutVerdict {
        match *self {
            ScoutOutcome::Waiting => ScoutVerdict::Waiting,
            ScoutOutcome::Adopted(b, pvalues) => ScoutVerdict::Adopted(b, pvalues@),
            ScoutOutcome::Preempted(b) => ScoutVerdict::Preempted(b),
        }
    }
}

impl View for Scout {
    type V = ScoutView;

    closed spec fn view(&self) -> ScoutView {
        ScoutView {
            leader: self.leader,
            ballot: self.ballot,
            total: self.total as nat,
            waiting: self.wait_for@,
            pvalues: self.pvalues@,
        }
    }
}

/// A leader's helper for the second phase of one proposal.
#[derive(Debug)]
pub struct Commander {
    leader: NodeId,
    proposal: Proposal,
    total: usize,
    wait_for: Vec<NodeId>,
}

/// What a commander makes of an answer.
#[derive(Debug)]
pub enum CommanderOutcome {
    /// No quorum yet, or the answer was stale.
    Waiting,
    /// A quorum has answered for the ballot: the slot holds the command.
    Decided(usize, Command),
    /// An acceptor holds this higher ballot.
    Preempted(Ballot),
}

impl View for CommanderOutcome {
    type V = CommanderVerdict;

    open spec fn view(&self) -> CommanderVerdict {
        match *self {
            CommanderOutcome::Waiting => CommanderVerdict::Waiting,
            CommanderOutcome::Decided(slot, command) => CommanderVerdict::Decided(slot, command),
            CommanderOutcome::Preempted(b) => CommanderVerdict::Preempted(b),
        }
    }
}

impl View for Commander {
    type V = CommanderView;

    closed spec fn view(&self) -> CommanderView {
        CommanderView {
            leader: self.leader,
            proposal: self.proposal,
            total: self.total as nat,
            waiting: self.wait_for@,
        }
    }
}

/// What stands for a leader in contracts.
pub ghost struct LeaderView {
    pub id: NodeId,
    /// Whether a quorum has promised the current ballot.
    pub active: bool,
    /// The current ballot.
    pub ballot: Ballot,
    /// The command the leader drives for each slot.
    pub proposals: Map<usize, Command>,
    /// The slots of `proposals`, in the order in which they came.
    pub order: Seq<usize>,
    /// The acceptors, each once.
    pub acceptors: Seq<NodeId>,
    /// The scout for the current ballot, while it runs.
    pub scout: Option<ScoutView>,
    /// The commanders that run.
    pub commanders: Seq<CommanderView>,
}

/// A leader together with its scout and its commanders.
#[derive(Debug)]
pub struct Leader {
    id: NodeId,
    active: bool,
    ballot: Ballot,
    proposals: BTreeMap<usize, Command>,
    order: Vec<usize>,
    acceptors: Vec<NodeId>,
    scout: Option<Scout>,
    commanders: Vec<Commander>,
}

impl View for Leader {
    type V = LeaderView;

    closed spec fn view(&self) -> LeaderView {
        LeaderView {
            id: self.id,
            active: self.active,
            ballot: self.ballot,
            proposals: self.proposals@,
            order: self.order@,
            acceptors: self.acceptors@,
            scout: match self.scout {
                Some(s) => Some(s@),
                None => None,
            },
            commanders: commander_views(self.commanders@),
        }
    }
}

/// The first `n` identifiers of `ids` without repetitions: each one where
/// it first occurs.
pub open spec fn distinct_upto(ids: Seq<NodeId>, n: int) -> Seq<NodeId>
    decreases n,
{
    if n <= 0 {
        Seq::empty()
    } else if distinct_upto(ids, n - 1).contains(ids[n - 1]) {
        distinct_upto(ids, n - 1)
    } else {
        distinct_upto(ids, n - 1).push(ids[n - 1])
    }
}

/// `ids` without repetitions: each identifier where it first occurs.
pub open spec fn distinct(ids: Seq<NodeId>) -> Seq<NodeId> {
    distinct_upto(ids, ids.len() as int)
}

/// The first `n` identifiers of `waiting` without `who`.
pub open spec fn strike_upto(waiting: Seq<NodeId>, who: NodeId, n: int) -> Seq<NodeId>
    decreases n,
{
    if n <= 0 {
        Seq::empty()
    } else if waiting[n - 1] == who {
        strike_upto(waiting, who, n - 1)
    } else {
        strike_upto(waiting, who, n - 1).push(waiting[n - 1])
    }
}

/// `waiting` without `who`, the others in their order.
pub open spec fn strike(waiting: Seq<NodeId>, who: NodeId) -> Seq<NodeId> {
    strike_upto(waiting, who, waiting.len() as int)
}

/// Some proposal of `pvalues` has the slot and the ballot of `p`.
pub open spec fn holds_key(pvalues: Seq<Proposal>, p: Proposal) -> bool {
    exists|i: int| 0 <= i < pvalues.len() && (#[trigger] pvalues[i]).same_key(p)
}

/// `pvalues` joined with the first `n` proposals of `more`, as sets of
/// proposals: one of `more` is appended unless a proposal with its slot and
/// ballot is there already.
pub open spec fn gather_upto(pvalues: Seq<Proposal>, more: Seq<Proposal>, n: int) -> Seq<Proposal>
    decreases n,
{
    if n <= 0 {
        pvalues
    } else if holds_key(gather_upto(pvalues, more, n - 1), more[n - 1]) {
        gather_upto(pvalues, more, n - 1)
    } else {
        gather_upto(pvalues, more, n - 1).push(more[n - 1])
    }
}

/// `pvalues` joined with `more`, as sets of proposals.
pub open spec fn gather(pvalues: Seq<Proposal>, more: Seq<Proposal>) -> Seq<Proposal> {
    gather_upto(pvalues, more, more.len() as int)
}

/// Of `total` acceptors, enough have answered for a quorum when only
/// `waiting` are still awaited.
pub open spec fn reached_quorum(total: nat, waiting: Seq<NodeId>) -> bool {
    total - waiting.len() >= crate::paxos::quorum_size(total)
}

/// The scout and its verdict after the first-phase answer of `acceptor`,
/// which holds `reported` and reports `accepted`. An answer for the scout's
/// ballot is counted: its proposals join the gathered ones and the acceptor
/// is no longer awaited. An answer with a higher ballot preempts. Any other
/// answer is stale.
pub open spec fn scout_step(
    s: ScoutView,
    acceptor: NodeId,
    reported: Ballot,
    accepted: Seq<Proposal>,
) -> (ScoutView, ScoutVerdict) {
    if reported == s.ballot {
        let next = ScoutView {
            waiting: strike(s.waiting, acceptor),
            pvalues: gather(s.pvalues, accepted),
            ..s
        };
        if reached_quorum(next.total, next.waiting) {
            (next, ScoutVerdict::Adopted(s.ballot, next.pvalues))
        } else {
            (next, ScoutVerdict::Waiting)
        }
    } else if s.ballot.precedes(reported) {
        (s, ScoutVerdict::Preempted(reported))
    } else {
        (s, ScoutVerdict::Waiting)
    }
}

/// A scout awaits distinct acceptors, and no more than it asked.
pub open spec fn scout_wf(s: ScoutView) -> bool {
    s.waiting.no_duplicates() && s.waiting.len() <= s.total
}

/// The commander and its verdict after the second-phase answer of
/// `acceptor`, which carries `reported`. An answer for the commander's
/// ballot is counted and the acceptor is no longer awaited. An answer with
/// a higher ballot preempts. Any other answer is stale.
pub open spec fn commander_step(c: CommanderView, acceptor: NodeId, reported: Ballot) -> (
    CommanderView,
    CommanderVerdict,
) {
    if reported == c.proposal.ballot {
        let next = CommanderView { waiting: strike(c.waiting, acceptor), ..c };
        if reached_quorum(next.total, next.waiting) {
            (next, CommanderVerdict::Decided(c.proposal.slot, c.proposal.command))
        } else {
            (next, CommanderVerdict::Waiting)
        }
    } else if c.proposal.ballot.precedes(reported) {
        (c, CommanderVerdict::Preempted(reported))
    } else {
        (c, CommanderVerdict::Waiting)
    }
}

/// A commander awaits distinct acceptors, and no more than it asked.
pub open spec fn commander_wf(c: CommanderView) -> bool {
    c.waiting.no_duplicates() && c.waiting.len() <= c.total
}

/// The first-phase requests of a scout: to each acceptor, by name, the
/// ballot to promise.
pub open spec fn scout_requests(acceptors: Seq<NodeId>, ballot: Ballot) -> Seq<OutboundView> {
    acceptors.map_values(
        |a: NodeId|
            OutboundView { to: Destination::Node(a), message: MessageView::Phase1a(a, ballot) },
    )
}

/// The scout that `leader` starts for `ballot` with the acceptors
/// `acceptors`, each counted once.
pub open spec fn new_scout(leader: NodeId, ballot: Ballot, acceptors: Seq<NodeId>) -> ScoutView {
    ScoutView {
        leader,
        ballot,
        total: distinct(acceptors).len(),
        waiting: distinct(acceptors),
        pvalues: Seq::empty(),
    }
}

/// The commander that `leader` starts for `proposal` with the acceptors
/// `acceptors`, each counted once.
pub open spec fn new_commander(
    leader: NodeId,
    proposal: Proposal,
    acceptors: Seq<NodeId>,
) -> CommanderView {
    CommanderView {
        leader,
        proposal,
        total: distinct(acceptors).len(),
        waiting: distinct(acceptors),
    }
}

/// The second-phase request of a commander, which goes to every acceptor.
pub open spec fn commander_request(leader: NodeId, proposal: Proposal) -> OutboundView {
    OutboundView { to: Destination::Acceptors, message: MessageView::Phase2a(leader, proposal) }
}

/// The decision that a commander announces to every replica.
pub open spec fn decision_notice(slot: usize, command: Command) -> OutboundView {
    OutboundView { to: Destination::Replicas, message: MessageView::Decision(slot, command) }
}

/// Some proposal of `pvalues` is for `slot`.
pub open spec fn has_slot(pvalues: Seq<Proposal>, slot: usize) -> bool {
    exists|i: int| 0 <= i < pvalues.len() && (#[trigger] pvalues[i]).slot == slot
}

/// Where the proposal stands that speaks for `slot`: the first one of the
/// slot with the highest ballot.
pub open spec fn speaker(pvalues: Seq<Proposal>, slot: usize) -> int {
    choose|i: int|
        0 <= i < pvalues.len() && (#[trigger] pvalues[i]).slot == slot
            && crate::paxos::acceptor::is_latest(pvalues, i)
}

/// For each slot that occurs in `pvalues`, the command of its proposal with
/// the highest ballot.
pub open spec fn pmax(pvalues: Seq<Proposal>) -> Map<usize, Command> {
    Map::new(|slot: usize| has_slot(pvalues, slot), |slot: usize| pvalues[speaker(pvalues, slot)].command)
}

/// The leader with a scout started for its ballot, and the scout's
/// requests.
pub open spec fn start_scout(l: LeaderView) -> (LeaderView, Seq<OutboundView>) {
    (
        LeaderView { scout: Some(new_scout(l.id, l.ballot, l.acceptors)), ..l },
        scout_requests(distinct(l.acceptors), l.ballot),
    )
}

/// The leader with a commander started for `proposal`, and `sent` with the
/// commander's request appended.
pub open spec fn start_commander(l: LeaderView, proposal: Proposal, sent: Seq<OutboundView>) -> (
    LeaderView,
    Seq<OutboundView>,
) {
    (
        LeaderView {
            commanders: l.commanders.push(new_commander(l.id, proposal, l.acceptors)),
            ..l
        },
        sent.push(commander_request(l.id, proposal)),
    )
}

/// A leader as it starts: inactive, ballot number 0, nothing proposed, and
/// a scout under way.
pub open spec fn leader_start(id: NodeId, acceptors: Seq<NodeId>) -> (
    LeaderView,
    Seq<OutboundView>,
) {
    start_scout(
        LeaderView {
            id,
            active: false,
            ballot: Ballot { num: 0, leader_id: id },
            proposals: Map::empty(),
            order: Seq::empty(),
            acceptors: distinct(acceptors),
            scout: None,
            commanders: Seq::empty(),
        },
    )
}

/// The leader after a replica proposed `command` for `slot`. A slot that
/// has a command keeps it. Otherwise the command is noted, and an active
/// leader starts a commander for it under its ballot.
pub open spec fn leader_propose(l: LeaderView, slot: usize, command: Command) -> (
    LeaderView,
    Seq<OutboundView>,
) {
    if l.proposals.contains_key(slot) {
        (l, Seq::empty())
    } else {
        let noted = LeaderView {
            proposals: l.proposals.insert(slot, command),
            order: l.order.push(slot),
            ..l
        };
        if l.active {
            start_commander(noted, Proposal { slot, ballot: l.ballot, command }, Seq::empty())
        } else {
            (noted, Seq::empty())
        }
    }
}

/// The leader after it took over the commands of the first `n` of
/// `winners`: each replaces what the leader had for its slot.
pub open spec fn take_over(l: LeaderView, winners: Seq<Proposal>, n: int) -> LeaderView
    decreases n,
{
    if n <= 0 {
        l
    } else {
        let before = take_over(l, winners, n - 1);
        let p = winners[n - 1];
        LeaderView {
            proposals: before.proposals.insert(p.slot, p.command),
            order: if before.proposals.contains_key(p.slot) {
                before.order
            } else {
                before.order.push(p.slot)
            },
            ..before
        }
    }
}

/// The leader after it started, under `ballot`, a commander for each of the
/// first `n` slots of its order, and the requests of those commanders.
pub open spec fn command_slots(l: LeaderView, ballot: Ballot, n: int) -> (
    LeaderView,
    Seq<OutboundView>,
)
    decreases n,
{
    if n <= 0 {
        (l, Seq::empty())
    } else {
        let (before, sent) = command_slots(l, ballot, n - 1);
        let slot = l.order[n - 1];
        start_commander(before, Proposal { slot, ballot, command: l.proposals[slot] }, sent)
    }
}

/// The leader after its scout found `ballot` adopted, with `pvalues`
/// gathered: for the slots that occur in `pvalues` the leader takes over
/// the command of the highest ballot, it starts a commander under `ballot`
/// for every slot it then has a command for, and it is active.
pub open spec fn leader_adopted(l: LeaderView, ballot: Ballot, pvalues: Seq<Proposal>) -> (
    LeaderView,
    Seq<OutboundView>,
) {
    let winners = crate::paxos::acceptor::latest(pvalues);
    let merged = take_over(l, winners, winners.len() as int);
    let (commanding, sent) = command_slots(merged, ballot, merged.order.len() as int);
    (LeaderView { active: true, ..commanding }, sent)
}

/// The leader after a helper was preempted by `reported`. A ballot above
/// the leader's own makes it inactive, and it goes on with the ballot
/// number after `reported` and a new scout (with no scout, if there is no
/// higher number). A ballot that is not above the leader's own is stale.
pub open spec fn leader_preempted(l: LeaderView, reported: Ballot) -> (
    LeaderView,
    Seq<OutboundView>,
) {
    if !l.ballot.precedes(reported) {
        (l, Seq::empty())
    } else if reported.num < usize::MAX {
        start_scout(
            LeaderView {
                active: false,
                ballot: Ballot { num: (reported.num + 1) as usize, leader_id: l.id },
                ..l
            },
        )
    } else {
        (LeaderView { active: false, scout: None, ..l }, Seq::empty())
    }
}

/// The leader after the first-phase answer of `acceptor`. The scout takes
/// it; when the scout reaches a verdict it is gone, and the leader acts on
/// the verdict. Without a scout the answer is dropped.
pub open spec fn leader_phase1b(
    l: LeaderView,
    acceptor: NodeId,
    reported: Ballot,
    accepted: Seq<Proposal>,
) -> (LeaderView, Seq<OutboundView>) {
    match l.scout {
        None => (l, Seq::empty()),
        Some(scout) => {
            let (next, verdict) = scout_step(scout, acceptor, reported, accepted);
            match verdict {
                ScoutVerdict::Waiting => (LeaderView { scout: Some(next), ..l }, Seq::empty()),
                ScoutVerdict::Adopted(ballot, pvalues) => leader_adopted(
                    LeaderView { scout: None, ..l },
                    ballot,
                    pvalues,
                ),
                ScoutVerdict::Preempted(higher) => leader_preempted(
                    LeaderView { scout: None, ..l },
                    higher,
                ),
            }
        },
    }
}

/// Where, among the first `n` commanders, the first one for `slot` under
/// `ballot` stands, or -1 if there is none.
pub open spec fn commander_at(
    commanders: Seq<CommanderView>,
    slot: usize,
    ballot: Ballot,
    n: int,
) -> int
    decreases n,
{
    if n <= 0 {
        -1
    } else if commander_at(commanders, slot, ballot, n - 1) >= 0 {
        commander_at(commanders, slot, ballot, n - 1)
    } else if commanders[n - 1].proposal.slot == slot && commanders[n - 1].proposal.ballot
        == ballot {
        n - 1
    } else {
        -1
    }
}

/// The leader after the second-phase answer of `acceptor` to the commander
/// for `slot` under `ballot`. The commander takes it; when it reaches a
/// verdict it is gone, and a decision is announced to every replica, or
/// the leader acts on the preemption. Without such a commander the answer
/// is dropped.
pub open spec fn leader_phase2b(
    l: LeaderView,
    slot: usize,
    ballot: Ballot,
    acceptor: NodeId,
    reported: Ballot,
) -> (LeaderView, Seq<OutboundView>) {
    let at = commander_at(l.commanders, slot, ballot, l.commanders.len() as int);
    if at < 0 {
        (l, Seq::empty())
    } else {
        let (next, verdict) = commander_step(l.commanders[at], acceptor, reported);
        match verdict {
            CommanderVerdict::Waiting => (
                LeaderView { commanders: l.commanders.update(at, next), ..l },
                Seq::empty(),
            ),
            CommanderVerdict::Decided(slot, command) => (
                LeaderView { commanders: l.commanders.remove(at), ..l },
                seq![decision_notice(slot, command)],
            ),
            CommanderVerdict::Preempted(higher) => leader_preempted(
                LeaderView { commanders: l.commanders.remove(at), ..l },
                higher,
            ),
        }
    }
}

/// The leader after `message`, and what it sends. A leader takes proposals
/// from replicas and first-phase answers; any other message changes
/// nothing and sends nothing. (A second-phase answer does not say which
/// commander it is for: see `leader_phase2b`.)
pub open spec fn leader_step(l: LeaderView, message: MessageView) -> (
    LeaderView,
    Seq<OutboundView>,
) {
    match message {
        MessageView::Propose(slot, command) => leader_propose(l, slot, command),
        MessageView::Phase1b(_, acceptor, reported, accepted) => leader_phase1b(
            l,
            acceptor,
            reported,
            accepted,
        ),
        _ => (l, Seq::empty()),
    }
}

/// What holds of a leader at every moment: the acceptors are distinct, the
/// helpers are well formed, and `order` lists the slots of `proposals`,
/// each once.
pub open spec fn leader_wf(l: LeaderView) -> bool {
    &&& l.acceptors.no_duplicates()
    &&& l.scout matches Some(s) ==> scout_wf(s)
    &&& forall|i: int| 0 <= i < l.commanders.len() ==> commander_wf(#[trigger] l.commanders[i])
    &&& l.order.no_duplicates()
    &&& forall|slot: usize| #[trigger] l.proposals.contains_key(slot) <==> l.order.contains(slot)
}

/// Every command that the leader and its helpers hold is one of `known`.
pub open spec fn leader_within(l: LeaderView, known: Set<Command>) -> bool {
    &&& forall|slot: usize|
        l.proposals.contains_key(slot) ==> known.contains(#[trigger] l.proposals[slot])
    &&& l.scout matches Some(s) ==> crate::paxos::proposals_within(s.pvalues, known)
    &&& forall|i: int|
        0 <= i < l.commanders.len() ==> known.contains(
            (#[trigger] l.commanders[i]).proposal.command,
        )
}

/// The views of a list of commanders, in order.
pub open spec fn commander_views(commanders: Seq<Commander>) -> Seq<CommanderView> {
    commanders.map_values(|c: Commander| c@)
}

/// Whether `ids` holds `who`.
fn holds_id(ids: &Vec<NodeId>, who: &NodeId) -> (r: bool)
    ensures
        r == ids@.contains(*who),
{
    let mut i: usize = 0;
    while i < ids.len()
        invariant
            0 <= i <= ids.len(),
            forall|j: int| 0 <= j < i ==> ids@[j] != *who,
        decreases ids.len() - i,
    {
        if ids[i] == *who {
            return true;
        }
        i += 1;
    }
    false
}

/// `ids` without repetitions.
fn distinct_ids(ids: &Vec<NodeId>) -> (r: Vec<NodeId>)
    ensures
        r@ == distinct(ids@),
{
    let mut r: Vec<NodeId> = Vec::new();
    let mut i: usize = 0;
    while i < ids.len()
        invariant
            0 <= i <= ids.len(),
            r@ == distinct_upto(ids@, i as int),
        decreases ids.len() - i,
    {
        if !holds_id(&r, &ids[i]) {
            r.push(ids[i]);
        }
        i += 1;
    }
    r
}

/// `waiting` without `who`.
fn strike_id(waiting: &Vec<NodeId>, who: &NodeId) -> (r: Vec<NodeId>)
    ensures
        r@ == strike(waiting@, *who),
{
    let mut r: Vec<NodeId> = Vec::new();
    let mut i: usize = 0;
    while i < waiting.len()
        invariant
            0 <= i <= waiting.len(),
            r@ == strike_upto(waiting@, *who, i as int),
        decreases waiting.len() - i,
    {
        if waiting[i] != *who {
            r.push(waiting[i]);
        }
        i += 1;
    }
    r
}

/// Whether some proposal of `pvalues` has the slot and the ballot of `p`.
fn holds_proposal(pvalues: &Vec<Proposal>, p: &Proposal) -> (r: bool)
    ensures
        r == holds_key(pvalues@, *p),
{
    let mut i: usize = 0;
    while i < pvalues.len()
        invariant
            0 <= i <= pvalues.len(),
            forall|j: int| 0 <= j < i ==> !(#[trigger] pvalues@[j]).same_key(*p),
        decreases pvalues.len() - i,
    {
        if pvalues[i] == *p {
            return true;
        }
        i += 1;
    }
    false
}

/// Joins `more` into `pvalues`, as sets of proposals.
fn gather_into(pvalues: &mut Vec<Proposal>, more: Vec<Proposal>)
    ensures
        final(pvalues)@ == gather(old(pvalues)@, more@),
{
    let mut i: usize = 0;
    while i < more.len()
        invariant
            0 <= i <= more.len(),
            pvalues@ == gather_upto(old(pvalues)@, more@, i as int),
        decreases more.len() - i,
    {
        if !holds_proposal(pvalues, &more[i]) {
            pvalues.push(more[i].clone());
        }
        i += 1;
    }
}

impl Scout {
    /// A scout awaits distinct acceptors, and no more than it asked.
    pub open spec fn wf(&self) -> bool {
        scout_wf(self@)
    }

    /// Starts a scout of `leader` for `ballot`. Hands back the scout and
    /// its first-phase request to each acceptor.
    pub fn new(leader: NodeId, ballot: Ballot, acceptors: &Vec<NodeId>) -> (r: (
        Scout,
        Vec<Outbound>,
    ))
        ensures
            r.0@ == new_scout(leader, ballot, acceptors@),
            r.0.wf(),
            crate::paxos::outbound_views(r.1@) == scout_requests(distinct(acceptors@), ballot),
    {
        let wait_for = distinct_ids(acceptors);
        proof {
            lemma_distinct(acceptors@, acceptors@.len() as int);
        }
        let mut out: Vec<Outbound> = Vec::new();
        let mut i: usize = 0;
        while i < wait_for.len()
            invariant
                0 <= i <= wait_for.len(),
                out.len() == i,
                forall|k: int|
                    0 <= k < i ==> (#[trigger] out@[k])@ == (OutboundView {
                        to: Destination::Node(wait_for@[k]),
                        message: MessageView::Phase1a(wait_for@[k], ballot),
                    }),
            decreases wait_for.len() - i,
        {
            out.push(
                Outbound {
                    to: Destination::Node(wait_for[i]),
                    message: Message::Phase1a(wait_for[i], ballot),
                },
            );
            i += 1;
        }
        assert(crate::paxos::outbound_views(out@) =~= scout_requests(wait_for@, ballot));
        let total = wait_for.len();
        (Scout { leader, ballot, total, wait_for, pvalues: Vec::new() }, out)
    }

    /// The ballot the scout asks the acceptors to promise.
    pub fn ballot(&self) -> (b: Ballot)
        ensures
            b == self@.ballot,
    {
        self.ballot
    }

    /// Takes the first-phase answer of `acceptor`, which holds `reported`
    /// and reports `accepted`, and says what follows from it.
    pub fn on_phase1b(&mut self, acceptor: NodeId, reported: Ballot, accepted: Vec<Proposal>) -> (r:
        ScoutOutcome)
        requires
            old(self).wf(),
        ensures
            final(self).wf(),
            (final(self)@, r@) == scout_step(old(self)@, acceptor, reported, accepted@),
    {
        proof {
            lemma_strike(self@.waiting, acceptor, self@.waiting.len() as int);
            crate::paxos::lemma_ballot_order_is_strict(self.ballot, reported);
        }
        if reported == self.ballot {
            gather_into(&mut self.pvalues, accepted);
            self.wait_for = strike_id(&self.wait_for, &acceptor);
            if self.total - self.wait_for.len() >= crate::paxos::quorum(self.total) {
                ScoutOutcome::Adopted(self.ballot, clone_proposals(&self.pvalues))
            } else {
                ScoutOutcome::Waiting
            }
        } else if reported > self.ballot {
            ScoutOutcome::Preempted(reported)
        } else {
            ScoutOutcome::Waiting
        }
    }
}

/// A copy of `pvalues`.
fn clone_proposals(pvalues: &Vec<Proposal>) -> (r: Vec<Proposal>)
    ensures
        r@ == pvalues@,
{
    let mut r: Vec<Proposal> = Vec::new();
    let mut i: usize = 0;
    while i < pvalues.len()
        invariant
            0 <= i <= pvalues.len(),
            r@ == pvalues@.take(i as int),
        decreases pvalues.len() - i,
    {
        r.push(pvalues[i].clone());
        assert(pvalues@.take(i + 1) =~= pvalues@.take(i as int).push(pvalues@[i as int]));
        i += 1;
    }
    assert(pvalues@.take(i as int) =~= pvalues@);
    r
}

impl Commander {
    /// A commander awaits distinct acceptors, and no more than it asked.
    pub open spec fn wf(&self) -> bool {
        commander_wf(self@)
    }

    /// Starts a commander of `leader` for `proposal`. Hands back the
    /// commander and its second-phase request.
    pub fn new(leader: NodeId, proposal: Proposal, acceptors: &Vec<NodeId>) -> (r: (
        Commander,
        Outbound,
    ))
        ensures
            r.0@ == new_commander(leader, proposal, acceptors@),
            r.0.wf(),
            r.1@ == commander_request(leader, proposal),
    {
        let wait_for = distinct_ids(acceptors);
        proof {
            lemma_distinct(acceptors@, acceptors@.len() as int);
        }
        let total = wait_for.len();
        let request = Outbound {
            to: Destination::Acceptors,
            message: Message::Phase2a(leader, proposal.clone()),
        };
        (Commander { leader, proposal, total, wait_for }, request)
    }

    /// The slot the commander works on.
    pub fn slot(&self) -> (r: usize)
        ensures
            r == self@.proposal.slot,
    {
        self.proposal.slot
    }

    /// The ballot the commander works under.
    pub fn ballot(&self) -> (b: Ballot)
        ensures
            b == self@.proposal.ballot,
    {
        self.proposal.ballot
    }

    /// Takes the second-phase answer of `acceptor`, which carries
    /// `reported`, and says what follows from it.
    pub fn on_phase2b(&mut self, acceptor: NodeId, reported: Ballot) -> (r: CommanderOutcome)
        requires
            old(self).wf(),
        ensures
            final(self).wf(),
            (final(self)@, r@) == commander_step(old(self)@, acceptor, reported),
    {
        proof {
            lemma_strike(self@.waiting, acceptor, self@.waiting.len() as int);
            crate::paxos::lemma_ballot_order_is_strict(self.proposal.ballot, reported);
        }
        if reported == self.proposal.ballot {
            self.wait_for = strike_id(&self.wait_for, &acceptor);
            if self.total - self.wait_for.len() >= crate::paxos::quorum(self.total) {
                CommanderOutcome::Decided(self.proposal.slot, self.proposal.command.clone())
            } else {
                CommanderOutcome::Waiting
            }
        } else if reported > self.proposal.ballot {
            CommanderOutcome::Preempted(reported)
        } else {
            CommanderOutcome::Waiting
        }
    }
}

impl Leader {
    /// What holds of a leader at every moment.
    pub open spec fn wf(&self) -> bool {
        leader_wf(self@)
    }

    /// Starts a leader with the acceptors `acceptors`, each counted once.
    /// Hands back the leader and the first-phase requests of its scout.
    pub fn new(id: NodeId, acceptors: &Vec<NodeId>) -> (r: (Leader, Vec<Outbound>))
        ensures
            (r.0@, crate::paxos::outbound_views(r.1@)) == leader_start(id, acceptors@),
            r.0.wf(),
    {
        let distinct = distinct_ids(acceptors);
        let ballot = Ballot::new(0, id);
        proof {
            lemma_distinct(acceptors@, acceptors@.len() as int);
            lemma_distinct(distinct@, distinct@.len() as int);
            assert(distinct@.take(distinct@.len() as int) =~= distinct@);
        }
        let (scout, requests) = Scout::new(id, ballot, &distinct);
        let leader = Leader {
            id,
            active: false,
            ballot,
            proposals: BTreeMap::new(),
            order: Vec::new(),
            acceptors: distinct,
            scout: Some(scout),
            commanders: Vec::new(),
        };
        assert(leader@.commanders =~= Seq::empty());
        (leader, requests)
    }

    /// Starts a scout for the current ballot and hands back its requests.
    fn start_scout(&mut self) -> (out: Vec<Outbound>)
        ensures
            (final(self)@, crate::paxos::outbound_views(out@)) == start_scout(old(self)@),
    {
        let (scout, requests) = Scout::new(self.id, self.ballot, &self.acceptors);
        self.scout = Some(scout);
        requests
    }

    /// Starts a commander for `proposal` and appends its request to `out`.
    fn start_commander(&mut self, proposal: Proposal, out: &mut Vec<Outbound>)
        ensures
            (final(self)@, crate::paxos::outbound_views(final(out)@)) == start_commander(
                old(self)@,
                proposal,
                crate::paxos::outbound_views(old(out)@),
            ),
    {
        let (commander, request) = Commander::new(self.id, proposal, &self.acceptors);
        proof {
            assert(commander_views(self.commanders@.push(commander)) =~= commander_views(
                self.commanders@,
            ).push(commander@));
            assert(crate::paxos::outbound_views(out@.push(request))
                =~= crate::paxos::outbound_views(out@).push(request@));
        }
        self.commanders.push(commander);
        out.push(request);
    }

    /// Takes a replica's proposal of `command` for `slot`. A slot that has
    /// a command keeps it. Otherwise the command is noted, and an active
    /// leader starts a commander for it. Hands back what to send.
    pub fn on_propose(&mut self, slot: usize, command: Command) -> (out: Vec<Outbound>)
        requires
            old(self).wf(),
        ensures
            final(self).wf(),
            (final(self)@, crate::paxos::outbound_views(out@)) == leader_propose(
                old(self)@,
                slot,
                command,
            ),
    {
        proof {
            lemma_propose_wf(self@, slot, command);
        }
        let mut out: Vec<Outbound> = Vec::new();
        assert(crate::paxos::outbound_views(out@) =~= Seq::empty());
        if self.proposals.contains_key(&slot) {
            return out;
        }
        self.proposals.insert(slot, command.clone());
        self.order.push(slot);
        if self.active {
            let proposal = Proposal { slot, ballot: self.ballot, command };
            self.start_commander(proposal, &mut out);
        }
        out
    }

    /// Acts on an adoption of `ballot` with `pvalues` gathered: for the
    /// slots that occur in `pvalues` the leader takes over the command of
    /// the highest ballot, starts a commander under `ballot` for every
    /// slot it then has a command for, and is active. Hands back what to
    /// send.
    pub fn on_adopted(&mut self, ballot: Ballot, pvalues: Vec<Proposal>) -> (out: Vec<Outbound>)
        requires
            old(self).wf(),
        ensures
            final(self).wf(),
            (final(self)@, crate::paxos::outbound_views(out@)) == leader_adopted(
                old(self)@,
                ballot,
                pvalues@,
            ),
            final(self)@.proposals == old(self)@.proposals.union_prefer_right(pmax(pvalues@)),
    {
        proof {
            lemma_adoption_merges_pmax(self@, ballot, pvalues@);
            lemma_adopted_wf(self@, ballot, pvalues@);
        }
        let winners = crate::paxos::acceptor::latest_of(&pvalues);
        let mut i: usize = 0;
        while i < winners.len()
            invariant
                0 <= i <= winners.len(),
                old(self).wf(),
                self@ == take_over(old(self)@, winners@, i as int),
            decreases winners.len() - i,
        {
            proof {
                lemma_take_over(old(self)@, winners@, i as int);
            }
            let slot = winners[i].slot;
            if !self.proposals.contains_key(&slot) {
                self.order.push(slot);
            }
            self.proposals.insert(slot, winners[i].command.clone());
            i += 1;
        }
        proof {
            lemma_take_over(old(self)@, winners@, winners@.len() as int);
        }
        let ghost merged = self@;
        let mut out: Vec<Outbound> = Vec::new();
        assert(crate::paxos::outbound_views(out@) =~= Seq::empty());
        let mut k: usize = 0;
        while k < self.order.len()
            invariant
                0 <= k <= self.order.len(),
                leader_wf(merged),
                self.order@ == merged.order,
                self.proposals@ == merged.proposals,
                (self@, crate::paxos::outbound_views(out@)) == command_slots(
                    merged,
                    ballot,
                    k as int,
                ),
            decreases self.order.len() - k,
        {
            let slot = self.order[k];
            assert(merged.order.contains(slot));
            assert(merged.proposals.contains_key(slot));
            proof {
                lemma_command_slots(merged, ballot, k as int);
            }
            let found = match self.proposals.get(&slot) {
                Some(c) => Some(c.clone()),
                None => None,
            };
            if let Some(command) = found {
                self.start_commander(Proposal { slot, ballot, command }, &mut out);
            }
            k += 1;
        }
        self.active = true;
        out
    }

    /// Acts on a preemption by `reported`. A ballot above the leader's own
    /// makes it inactive, and it goes on with the ballot number after
    /// `reported` and a new scout. A ballot that is not above the leader's
    /// own is stale. Hands back what to send.
    pub fn on_preempted(&mut self, reported: Ballot) -> (out: Vec<Outbound>)
        requires
            old(self).wf(),
        ensures
            final(self).wf(),
            (final(self)@, crate::paxos::outbound_views(out@)) == leader_preempted(
                old(self)@,
                reported,
            ),
    {
        proof {
            crate::paxos::lemma_ballot_order_is_strict(self.ballot, reported);
            lemma_preempted_wf(self@, reported);
        }
        if !(reported > self.ballot) {
            let out: Vec<Outbound> = Vec::new();
            assert(crate::paxos::outbound_views(out@) =~= Seq::empty());
            return out;
        }
        self.active = false;
        if reported.num < usize::MAX {
            self.ballot = Ballot::new(reported.num + 1, self.id);
            self.start_scout()
        } else {
            self.scout = None;
            let out: Vec<Outbound> = Vec::new();
            assert(crate::paxos::outbound_views(out@) =~= Seq::empty());
            out
        }
    }

    /// Takes the first-phase answer of `acceptor`, which holds `reported`
    /// and reports `accepted`. Hands back what to send.
    pub fn on_phase1b(
        &mut self,
        acceptor: NodeId,
        reported: Ballot,
        accepted: Vec<Proposal>,
    ) -> (out:
        Vec<Outbound>)
        requires
            old(self).wf(),
        ensures
            final(self).wf(),
            (final(self)@, crate::paxos::outbound_views(out@)) == leader_phase1b(
                old(self)@,
                acceptor,
                reported,
                accepted@,
            ),
    {
        proof {
            lemma_phase1b_wf(self@, acceptor, reported, accepted@);
            lemma_wf_frame(self@, LeaderView { scout: None, ..self@ });
        }
        let mut scout = match self.scout.take() {
            Some(scout) => scout,
            None => {
                let out: Vec<Outbound> = Vec::new();
                assert(crate::paxos::outbound_views(out@) =~= Seq::empty());
                return out;
            },
        };
        match scout.on_phase1b(acceptor, reported, accepted) {
            ScoutOutcome::Waiting => {
                self.scout = Some(scout);
                let out: Vec<Outbound> = Vec::new();
                assert(crate::paxos::outbound_views(out@) =~= Seq::empty());
                out
            },
            ScoutOutcome::Adopted(ballot, pvalues) => self.on_adopted(ballot, pvalues),
            ScoutOutcome::Preempted(higher) => self.on_preempted(higher),
        }
    }

    /// Where the first commander for `slot` under `ballot` stands.
    fn find_commander(&self, slot: usize, ballot: Ballot) -> (r: Option<usize>)
        ensures
            match r {
                Some(at) => at < self.commanders.len() && at == commander_at(
                    self@.commanders,
                    slot,
                    ballot,
                    self@.commanders.len() as int,
                ),
                None => commander_at(self@.commanders, slot, ballot, self@.commanders.len() as int)
                    < 0,
            },
    {
        let mut i: usize = 0;
        while i < self.commanders.len()
            invariant
                0 <= i <= self.commanders.len(),
                commander_at(self@.commanders, slot, ballot, i as int) < 0,
            decreases self.commanders.len() - i,
        {
            if self.commanders[i].slot() == slot && self.commanders[i].ballot() == ballot {
                proof {
                    lemma_commander_at_stays(
                        self@.commanders,
                        slot,
                        ballot,
                        i + 1,
                        self@.commanders.len() as int,
                    );
                }
                return Some(i);
            }
            i += 1;
        }
        None
    }

    /// Takes the second-phase answer of `acceptor`, which carries
    /// `reported`, for the commander for `slot` under `ballot`. Hands back
    /// what to send.
    pub fn on_phase2b(
        &mut self,
        slot: usize,
        ballot: Ballot,
        acceptor: NodeId,
        reported: Ballot,
    ) -> (out: Vec<Outbound>)
        requires
            old(self).wf(),
        ensures
            final(self).wf(),
            (final(self)@, crate::paxos::outbound_views(out@)) == leader_phase2b(
                old(self)@,
                slot,
                ballot,
                acceptor,
                reported,
            ),
    {
        proof {
            lemma_phase2b_wf(self@, slot, ballot, acceptor, reported);
        }
        let at = match self.find_commander(slot, ballot) {
            Some(at) => at,
            None => {
                let out: Vec<Outbound> = Vec::new();
                assert(crate::paxos::outbound_views(out@) =~= Seq::empty());
                return out;
            },
        };
        let ghost before = self@;
        let mut commander = self.commanders.remove(at);
        assert(commander@ == before.commanders[at as int]);
        assert(commander_views(self.commanders@) =~= before.commanders.remove(at as int));
        proof {
            assert(commander_wf(before.commanders[at as int]));
            let fewer = LeaderView { commanders: before.commanders.remove(at as int), ..before };
            assert(leader_wf(fewer)) by {
                assert forall|i: int| 0 <= i < fewer.commanders.len() implies commander_wf(
                    #[trigger] fewer.commanders[i],
                ) by {
                    if i < at {
                        assert(commander_wf(before.commanders[i]));
                    } else {
                        assert(commander_wf(before.commanders[i + 1]));
                    }
                }
                assert forall|s: usize| #[trigger]
                    fewer.proposals.contains_key(s) <==> fewer.order.contains(s) by {
                    assert(before.proposals.contains_key(s) <==> before.order.contains(s));
                }
            }
        }
        match commander.on_phase2b(acceptor, reported) {
            CommanderOutcome::Waiting => {
                proof {
                    assert(commander_views(self.commanders@.insert(at as int, commander))
                        =~= before.commanders.update(at as int, commander@));
                }
                self.commanders.insert(at, commander);
                let out: Vec<Outbound> = Vec::new();
                assert(crate::paxos::outbound_views(out@) =~= Seq::empty());
                out
            },
            CommanderOutcome::Decided(slot, command) => {
                let mut out: Vec<Outbound> = Vec::new();
                let notice = Outbound {
                    to: Destination::Replicas,
                    message: Message::Decision(slot, command),
                };
                out.push(notice);
                assert(crate::paxos::outbound_views(out@) =~= seq![
                    decision_notice(slot, command),
                ]);
                out
            },
            CommanderOutcome::Preempted(higher) => self.on_preempted(higher),
        }
    }

    /// Handles one inbound message. Proposals and first-phase answers are
    /// taken; any other message is dropped without a change.
    pub fn handle(&mut self, message: Message) -> (out: Vec<Outbound>)
        requires
            old(self).wf(),
        ensures
            final(self).wf(),
            (final(self)@, crate::paxos::outbound_views(out@)) == leader_step(
                old(self)@,
                message@,
            ),
    {
        proof {
            lemma_wf_frame(self@, self@);
        }
        match message {
            Message::Propose(slot, command) => self.on_propose(slot, command),
            Message::Phase1b(_, acceptor, reported, accepted) => self.on_phase1b(
                acceptor,
                reported,
                accepted,
            ),
            _ => {
                let out: Vec<Outbound> = Vec::new();
                assert(crate::paxos::outbound_views(out@) =~= Seq::empty());
                out
            },
        }
    }

    /// This leader's identifier.
    pub fn id(&self) -> (r: NodeId)
        ensures
            r == self@.id,
    {
        self.id
    }

    /// Whether a quorum has promised the current ballot.
    pub fn is_active(&self) -> (r: bool)
        ensures
            r == self@.active,
    {
        self.active
    }

    /// The current ballot.
    pub fn ballot(&self) -> (r: Ballot)
        ensures
            r == self@.ballot,
    {
        self.ballot
    }

    /// The command the leader drives for `slot`, if it has one.
    pub fn proposal(&self, slot: usize) -> (r: Option<&Command>)
        ensures
            r is Some <==> self@.proposals.contains_key(slot),
            r matches Some(c) ==> *c == self@.proposals[slot],
    {
        self.proposals.get(&slot)
    }

    /// Whether a scout runs.
    pub fn is_scouting(&self) -> (r: bool)
        ensures
            r == self@.scout is Some,
    {
        self.scout.is_some()
    }

    /// How many commanders run.
    pub fn commanders(&self) -> (r: usize)
        ensures
            r == self@.commanders.len(),
    {
        self.commanders.len()
    }
}

/// Striking an identifier keeps a list free of repetitions and makes it no
/// longer; afterwards the list holds the others and not the one struck.
pub proof fn lemma_strike(waiting: Seq<NodeId>, who: NodeId, n: int)
    requires
        0 <= n <= waiting.len(),
    ensures
        strike_upto(waiting, who, n).len() <= n,
        forall|x: NodeId| #[trigger]
            strike_upto(waiting, who, n).contains(x) <==> (x != who && exists|i: int|
                0 <= i < n && waiting[i] == x),
        waiting.no_duplicates() ==> strike_upto(waiting, who, n).no_duplicates(),
        waiting.no_duplicates() && (exists|i: int| 0 <= i < n && waiting[i] == who)
            ==> strike_upto(waiting, who, n).len() == n - 1,
        !(exists|i: int| 0 <= i < n && waiting[i] == who) ==> strike_upto(waiting, who, n).len()
            == n,
    decreases n,
{
    if n > 0 {
        lemma_strike(waiting, who, n - 1);
        let before = strike_upto(waiting, who, n - 1);
        let after = strike_upto(waiting, who, n);
        assert forall|x: NodeId| #[trigger] after.contains(x) <==> (x != who && exists|i: int|
            0 <= i < n && waiting[i] == x) by {
            if after.contains(x) {
                let k = choose|k: int| 0 <= k < after.len() && after[k] == x;
                if k < before.len() {
                    assert(before[k] == x);
                    assert(before.contains(x));
                } else {
                    assert(waiting[n - 1] == x);
                }
            }
            if x != who && exists|i: int| 0 <= i < n && waiting[i] == x {
                let i = choose|i: int| 0 <= i < n && waiting[i] == x;
                if i < n - 1 {
                    assert(before.contains(x));
                    let k = choose|k: int| 0 <= k < before.len() && before[k] == x;
                    assert(after[k] == x);
                } else {
                    assert(after[after.len() - 1] == x);
                }
            }
        }
        if waiting.no_duplicates() {
            assert forall|i: int, j: int| 0 <= i < j < after.len() implies after[i] != after[j] by {
                if j == before.len() {
                    assert(before.contains(before[i]));
                }
            }
            if exists|i: int| 0 <= i < n && waiting[i] == who {
                let i = choose|i: int| 0 <= i < n && waiting[i] == who;
                if i == n - 1 {
                    assert(!(exists|j: int| 0 <= j < n - 1 && waiting[j] == who));
                }
            }
        }
    }
}

/// A promise above a commander's ballot preempts the commander: the
/// acceptor that holds it accepts nothing under the commander's ballot and
/// answers with the promise, and on that answer the commander gives up
/// with that ballot.
pub proof fn lemma_higher_promise_preempts(
    a: crate::paxos::acceptor::AcceptorView,
    c: CommanderView,
    leader: NodeId,
)
    requires
        a.ballot is Some,
        c.proposal.ballot.precedes(a.ballot.unwrap()),
    ensures
        crate::paxos::acceptor::after_p2(a, c.proposal) == a,
        crate::paxos::acceptor::reply_p2(a, leader, c.proposal) == MessageView::Phase2b(
            leader,
            a.id,
            a.ballot.unwrap(),
        ),
        commander_step(c, a.id, a.ballot.unwrap()) == (
            c,
            CommanderVerdict::Preempted(a.ballot.unwrap()),
        ),
{
    crate::paxos::lemma_ballot_order_is_strict(c.proposal.ballot, a.ballot.unwrap());
}

/// Both kinds of helper stay well formed, whatever answer they get.
pub proof fn lemma_helpers_stay_wf(
    s: ScoutView,
    c: CommanderView,
    acceptor: NodeId,
    reported: Ballot,
    accepted: Seq<Proposal>,
)
    ensures
        scout_wf(s) ==> scout_wf(scout_step(s, acceptor, reported, accepted).0),
        commander_wf(c) ==> commander_wf(commander_step(c, acceptor, reported).0),
{
    lemma_strike(s.waiting, acceptor, s.waiting.len() as int);
    lemma_strike(c.waiting, acceptor, c.waiting.len() as int);
}

/// A list of identifiers without repetitions has no duplicates.
pub proof fn lemma_distinct(ids: Seq<NodeId>, n: int)
    requires
        0 <= n <= ids.len(),
    ensures
        distinct_upto(ids, n).no_duplicates(),
        distinct_upto(ids, n).len() <= n,
        forall|x: NodeId| #[trigger]
            distinct_upto(ids, n).contains(x) <==> exists|i: int| 0 <= i < n && ids[i] == x,
        ids.no_duplicates() ==> distinct_upto(ids, n) == ids.take(n),
    decreases n,
{
    if n > 0 {
        lemma_distinct(ids, n - 1);
        let before = distinct_upto(ids, n - 1);
        let after = distinct_upto(ids, n);
        assert forall|x: NodeId| #[trigger] after.contains(x) <==> exists|i: int|
            0 <= i < n && ids[i] == x by {
            if after.contains(x) {
                let k = choose|k: int| 0 <= k < after.len() && after[k] == x;
                if k < before.len() {
                    assert(before[k] == x);
                    assert(before.contains(x));
                } else {
                    assert(ids[n - 1] == x);
                }
            }
            if exists|i: int| 0 <= i < n && ids[i] == x {
                let i = choose|i: int| 0 <= i < n && ids[i] == x;
                if i < n - 1 || before.contains(x) {
                    assert(before.contains(x));
                    let k = choose|k: int| 0 <= k < before.len() && before[k] == x;
                    assert(after[k] == x);
                } else {
                    assert(after[after.len() - 1] == x);
                }
            }
        }
        assert forall|i: int, j: int| 0 <= i < j < after.len() implies after[i] != after[j] by {
            if j == before.len() {
                assert(before.contains(before[i]));
            }
        }
        if ids.no_duplicates() {
            assert(!before.contains(ids[n - 1])) by {
                if before.contains(ids[n - 1]) {
                    let i = choose|i: int| 0 <= i < n - 1 && #[trigger] ids[i] == ids[n - 1];
                    assert(false);
                }
            }
            assert(after =~= ids.take(n));
        }
    }
}

/// Taking over commands keeps the leader well formed and changes nothing
/// but `proposals` and `order`. Where the `winners` have one proposal per
/// slot, the leader then has, for their slots, their commands, and for
/// every other slot what it had.
pub proof fn lemma_take_over(l: LeaderView, winners: Seq<Proposal>, n: int)
    requires
        0 <= n <= winners.len(),
        leader_wf(l),
    ensures
        leader_wf(take_over(l, winners, n)),
        take_over(l, winners, n) == (LeaderView {
            proposals: take_over(l, winners, n).proposals,
            order: take_over(l, winners, n).order,
            ..l
        }),
        forall|slot: usize| #[trigger]
            take_over(l, winners, n).proposals.contains_key(slot) <==> (l.proposals.contains_key(
                slot,
            ) || exists|k: int| 0 <= k < n && (#[trigger] winners[k]).slot == slot),
        forall|slot: usize|
            l.proposals.contains_key(slot) && !(exists|k: int|
                0 <= k < n && (#[trigger] winners[k]).slot == slot) ==> (#[trigger] take_over(
                l,
                winners,
                n,
            ).proposals[slot]) == l.proposals[slot],
        (forall|k: int, m: int|
            0 <= k < m < winners.len() ==> (#[trigger] winners[k]).slot != (
            #[trigger] winners[m]).slot) ==> forall|k: int|
            0 <= k < n ==> take_over(l, winners, n).proposals[(#[trigger] winners[k]).slot]
                == winners[k].command,
    decreases n,
{
    if n > 0 {
        lemma_take_over(l, winners, n - 1);
        let before = take_over(l, winners, n - 1);
        let after = take_over(l, winners, n);
        let p = winners[n - 1];
        assert forall|slot: usize| #[trigger] after.proposals.contains_key(slot) <==> after.order.contains(
            slot,
        ) by {
            if before.proposals.contains_key(slot) {
                assert(before.order.contains(slot));
                let k = choose|k: int| 0 <= k < before.order.len() && before.order[k] == slot;
                assert(after.order[k] == slot);
            }
            if after.order.contains(slot) {
                let k = choose|k: int| 0 <= k < after.order.len() && after.order[k] == slot;
                if k < before.order.len() {
                    assert(before.order[k] == slot);
                    assert(before.order.contains(slot));
                }
            }
            if slot == p.slot && !before.proposals.contains_key(p.slot) {
                assert(after.order[after.order.len() - 1] == slot);
            }
        }
        assert forall|i: int, j: int| 0 <= i < j < after.order.len() implies after.order[i]
            != after.order[j] by {
            if j == before.order.len() {
                assert(before.order.contains(before.order[i]));
            }
        }
        assert forall|slot: usize| #[trigger]
            after.proposals.contains_key(slot) <==> (l.proposals.contains_key(slot) || exists|
                k: int,
            | 0 <= k < n && (#[trigger] winners[k]).slot == slot) by {
            if exists|k: int| 0 <= k < n - 1 && (#[trigger] winners[k]).slot == slot {
                let k = choose|k: int| 0 <= k < n - 1 && (#[trigger] winners[k]).slot == slot;
                assert(winners[k].slot == slot);
            }
            if slot == p.slot {
                assert(winners[n - 1].slot == slot);
            }
        }
        if forall|k: int, m: int|
            0 <= k < m < winners.len() ==> (#[trigger] winners[k]).slot != (
            #[trigger] winners[m]).slot {
            assert forall|k: int| 0 <= k < n implies after.proposals[(#[trigger] winners[k]).slot]
                == winners[k].command by {
                if k < n - 1 {
                    assert(winners[k].slot != winners[n - 1].slot);
                }
            }
        }
    }
}

/// What a leader drives after an adoption: for the slots that occur in
/// `pvalues`, the command of the highest ballot; for the other slots, what
/// it drove before.
pub proof fn lemma_adoption_merges_pmax(l: LeaderView, ballot: Ballot, pvalues: Seq<Proposal>)
    requires
        leader_wf(l),
    ensures
        leader_adopted(l, ballot, pvalues).0.proposals == l.proposals.union_prefer_right(
            pmax(pvalues),
        ),
        leader_adopted(l, ballot, pvalues).0.active,
{
    let winners = crate::paxos::acceptor::latest(pvalues);
    let n = winners.len() as int;
    let at = crate::paxos::acceptor::lemma_latest_entries(pvalues, pvalues.len() as int);
    assert forall|k: int, m: int| 0 <= k < m < winners.len() implies (#[trigger] winners[k]).slot
        != (#[trigger] winners[m]).slot by {
        if winners[k].slot == winners[m].slot {
            crate::paxos::acceptor::lemma_one_speaker(pvalues, at[k], at[m]);
        }
    }
    lemma_take_over(l, winners, n);
    let merged = take_over(l, winners, n);
    lemma_command_slots(merged, ballot, merged.order.len() as int);
    let target = l.proposals.union_prefer_right(pmax(pvalues));
    assert forall|slot: usize| merged.proposals.contains_key(slot) <==> target.contains_key(
        slot,
    ) by {
        if exists|k: int| 0 <= k < n && (#[trigger] winners[k]).slot == slot {
            let k = choose|k: int| 0 <= k < n && (#[trigger] winners[k]).slot == slot;
            assert(pvalues[at[k]].slot == slot);
        }
        if has_slot(pvalues, slot) {
            crate::paxos::acceptor::lemma_speaker_exists(pvalues, slot, pvalues.len() as int);
            let i = choose|i: int|
                0 <= i < pvalues.len() && (#[trigger] pvalues[i]).slot == slot
                    && crate::paxos::acceptor::is_latest_within(pvalues, i, pvalues.len() as int);
            assert(crate::paxos::acceptor::is_latest(pvalues, i));
            let k = choose|k: int| 0 <= k < at.len() && #[trigger] at[k] == i;
            assert(winners[k].slot == slot);
        }
    }
    assert forall|slot: usize| merged.proposals.contains_key(slot) implies merged.proposals[slot]
        == target[slot] by {
        if has_slot(pvalues, slot) {
            crate::paxos::acceptor::lemma_speaker_exists(pvalues, slot, pvalues.len() as int);
            let i = choose|i: int|
                0 <= i < pvalues.len() && (#[trigger] pvalues[i]).slot == slot
                    && crate::paxos::acceptor::is_latest_within(pvalues, i, pvalues.len() as int);
            assert(crate::paxos::acceptor::is_latest(pvalues, i));
            let j = speaker(pvalues, slot);
            crate::paxos::acceptor::lemma_one_speaker(pvalues, i, j);
            let k = choose|k: int| 0 <= k < at.len() && #[trigger] at[k] == i;
            assert(winners[k].slot == slot);
            assert(merged.proposals[winners[k].slot] == winners[k].command);
        } else {
            if exists|k: int| 0 <= k < n && (#[trigger] winners[k]).slot == slot {
                let k = choose|k: int| 0 <= k < n && (#[trigger] winners[k]).slot == slot;
                assert(pvalues[at[k]].slot == slot);
            }
        }
    }
    assert(merged.proposals =~= target);
}

/// Starting commanders changes nothing but the list of commanders, which
/// grows by well-formed ones.
pub proof fn lemma_command_slots(l: LeaderView, ballot: Ballot, n: int)
    requires
        0 <= n <= l.order.len(),
        leader_wf(l),
    ensures
        leader_wf(command_slots(l, ballot, n).0),
        command_slots(l, ballot, n).0 == (LeaderView {
            commanders: command_slots(l, ballot, n).0.commanders,
            ..l
        }),
        command_slots(l, ballot, n).0.commanders.len() == l.commanders.len() + n,
        command_slots(l, ballot, n).1.len() == n,
    decreases n,
{
    if n > 0 {
        lemma_command_slots(l, ballot, n - 1);
        let (before, sent) = command_slots(l, ballot, n - 1);
        let slot = l.order[n - 1];
        lemma_start_commander_wf(
            before,
            Proposal { slot, ballot, command: l.proposals[slot] },
            sent,
        );
    }
}

/// Well-formedness looks only at the acceptors, the helpers, the proposals
/// and their order.
pub proof fn lemma_wf_frame(l: LeaderView, m: LeaderView)
    requires
        leader_wf(l),
        m.acceptors == l.acceptors,
        m.proposals == l.proposals,
        m.order == l.order,
        m.commanders == l.commanders,
        m.scout matches Some(s) ==> scout_wf(s),
    ensures
        leader_wf(m),
{
    assert forall|i: int| 0 <= i < m.commanders.len() implies commander_wf(
        #[trigger] m.commanders[i],
    ) by {
        assert(commander_wf(l.commanders[i]));
    }
    assert forall|slot: usize| #[trigger]
        m.proposals.contains_key(slot) <==> m.order.contains(slot) by {
        assert(l.proposals.contains_key(slot) <==> l.order.contains(slot));
    }
}

/// Starting a scout keeps the leader well formed.
pub proof fn lemma_start_scout_wf(l: LeaderView)
    requires
        leader_wf(l),
    ensures
        leader_wf(start_scout(l).0),
{
    lemma_distinct(l.acceptors, l.acceptors.len() as int);
    lemma_wf_frame(l, start_scout(l).0);
}

/// Starting a commander keeps the leader well formed.
pub proof fn lemma_start_commander_wf(l: LeaderView, proposal: Proposal, sent: Seq<OutboundView>)
    requires
        leader_wf(l),
    ensures
        leader_wf(start_commander(l, proposal, sent).0),
{
    lemma_distinct(l.acceptors, l.acceptors.len() as int);
    let m = start_commander(l, proposal, sent).0;
    assert forall|i: int| 0 <= i < m.commanders.len() implies commander_wf(
        #[trigger] m.commanders[i],
    ) by {
        if i < l.commanders.len() {
            assert(commander_wf(l.commanders[i]));
        }
    }
    assert forall|slot: usize| #[trigger]
        m.proposals.contains_key(slot) <==> m.order.contains(slot) by {
        assert(l.proposals.contains_key(slot) <==> l.order.contains(slot));
    }
}

/// Noting a command for a new slot keeps `order` in step with
/// `proposals`.
proof fn lemma_note_keeps_order(l: LeaderView, slot: usize, command: Command)
    requires
        leader_wf(l),
        !l.proposals.contains_key(slot),
    ensures
        leader_wf(
            LeaderView {
                proposals: l.proposals.insert(slot, command),
                order: l.order.push(slot),
                ..l
            },
        ),
{
    let m = LeaderView {
        proposals: l.proposals.insert(slot, command),
        order: l.order.push(slot),
        ..l
    };
    assert forall|s: usize| #[trigger] m.proposals.contains_key(s) <==> m.order.contains(s) by {
        assert(l.proposals.contains_key(s) <==> l.order.contains(s));
        if l.order.contains(s) {
            let k = choose|k: int| 0 <= k < l.order.len() && l.order[k] == s;
            assert(m.order[k] == s);
        }
        if m.order.contains(s) {
            let k = choose|k: int| 0 <= k < m.order.len() && m.order[k] == s;
            if k < l.order.len() {
                assert(l.order[k] == s);
                assert(l.order.contains(s));
            }
        }
        if s == slot {
            assert(m.order[m.order.len() - 1] == s);
        }
    }
    assert forall|i: int, j: int| 0 <= i < j < m.order.len() implies m.order[i] != m.order[j] by {
        if j == l.order.len() {
            assert(l.order.contains(l.order[i]));
            assert(l.proposals.contains_key(l.order[i]));
        }
    }
    assert forall|i: int| 0 <= i < m.commanders.len() implies commander_wf(
        #[trigger] m.commanders[i],
    ) by {
        assert(commander_wf(l.commanders[i]));
    }
}

/// A proposal keeps the leader well formed.
pub proof fn lemma_propose_wf(l: LeaderView, slot: usize, command: Command)
    requires
        leader_wf(l),
    ensures
        leader_wf(leader_propose(l, slot, command).0),
{
    if !l.proposals.contains_key(slot) {
        lemma_note_keeps_order(l, slot, command);
        let noted = LeaderView {
            proposals: l.proposals.insert(slot, command),
            order: l.order.push(slot),
            ..l
        };
        lemma_start_commander_wf(noted, Proposal { slot, ballot: l.ballot, command }, Seq::empty());
    }
}

/// A first-phase answer keeps the leader well formed.
pub proof fn lemma_phase1b_wf(
    l: LeaderView,
    acceptor: NodeId,
    reported: Ballot,
    accepted: Seq<Proposal>,
)
    requires
        leader_wf(l),
    ensures
        leader_wf(leader_phase1b(l, acceptor, reported, accepted).0),
{
    if l.scout is Some {
        let scout = l.scout.unwrap();
        let (next, verdict) = scout_step(scout, acceptor, reported, accepted);
        lemma_strike(scout.waiting, acceptor, scout.waiting.len() as int);
        let idle = LeaderView { scout: None, ..l };
        lemma_wf_frame(l, idle);
        lemma_wf_frame(l, LeaderView { scout: Some(next), ..l });
        match verdict {
            ScoutVerdict::Waiting => {},
            ScoutVerdict::Adopted(b, pv) => {
                lemma_adopted_wf(idle, b, pv);
            },
            ScoutVerdict::Preempted(higher) => {
                lemma_preempted_wf(idle, higher);
            },
        }
    }
}

/// A leader starts well formed, and holds no command.
pub proof fn lemma_leader_starts_wf(id: NodeId, acceptors: Seq<NodeId>)
    ensures
        leader_wf(leader_start(id, acceptors).0),
        leader_start(id, acceptors).0.proposals == Map::<usize, Command>::empty(),
        leader_start(id, acceptors).0.commanders == Seq::<CommanderView>::empty(),
        leader_start(id, acceptors).0.scout matches Some(s) && s.pvalues == Seq::<
            Proposal,
        >::empty(),
{
    lemma_distinct(acceptors, acceptors.len() as int);
    let ids = distinct(acceptors);
    lemma_distinct(ids, ids.len() as int);
    assert(ids.take(ids.len() as int) =~= ids);
}

/// Whatever message a leader takes, it stays well formed.
pub proof fn lemma_leader_stays_wf(l: LeaderView, message: MessageView)
    requires
        leader_wf(l),
    ensures
        leader_wf(leader_step(l, message).0),
{
    match message {
        MessageView::Propose(slot, command) => {
            lemma_propose_wf(l, slot, command);
        },
        MessageView::Phase1b(_, acceptor, reported, accepted) => {
            lemma_phase1b_wf(l, acceptor, reported, accepted);
        },
        _ => {},
    }
}

/// An adoption keeps the leader well formed.
pub proof fn lemma_adopted_wf(l: LeaderView, ballot: Ballot, pvalues: Seq<Proposal>)
    requires
        leader_wf(l),
    ensures
        leader_wf(leader_adopted(l, ballot, pvalues).0),
{
    let winners = crate::paxos::acceptor::latest(pvalues);
    lemma_take_over(l, winners, winners.len() as int);
    let merged = take_over(l, winners, winners.len() as int);
    lemma_command_slots(merged, ballot, merged.order.len() as int);
    let commanding = command_slots(merged, ballot, merged.order.len() as int).0;
    lemma_wf_frame(commanding, LeaderView { active: true, ..commanding });
}

/// A preemption keeps the leader well formed.
pub proof fn lemma_preempted_wf(l: LeaderView, reported: Ballot)
    requires
        leader_wf(l),
    ensures
        leader_wf(leader_preempted(l, reported).0),
{
    if l.ballot.precedes(reported) {
        if reported.num < usize::MAX {
            let rebased = LeaderView {
                active: false,
                ballot: Ballot { num: (reported.num + 1) as usize, leader_id: l.id },
                ..l
            };
            lemma_wf_frame(l, rebased);
            lemma_start_scout_wf(rebased);
        } else {
            lemma_wf_frame(l, LeaderView { active: false, scout: None, ..l });
        }
    }
}

/// The commander found for a slot and a ballot is one of the commanders.
pub proof fn lemma_commander_at(commanders: Seq<CommanderView>, slot: usize, ballot: Ballot, n: int)
    requires
        0 <= n <= commanders.len(),
    ensures
        -1 <= commander_at(commanders, slot, ballot, n) < n,
        commander_at(commanders, slot, ballot, n) >= 0 ==> {
            let at = commander_at(commanders, slot, ballot, n);
            commanders[at].proposal.slot == slot && commanders[at].proposal.ballot == ballot
        },
    decreases n,
{
    if n > 0 {
        lemma_commander_at(commanders, slot, ballot, n - 1);
    }
}

/// A leader that loses a commander stays well formed.
pub proof fn lemma_wf_commanders_removed(l: LeaderView, at: int)
    requires
        leader_wf(l),
        0 <= at < l.commanders.len(),
    ensures
        leader_wf(LeaderView { commanders: l.commanders.remove(at), ..l }),
{
    let fewer = LeaderView { commanders: l.commanders.remove(at), ..l };
    assert forall|i: int| 0 <= i < fewer.commanders.len() implies commander_wf(
        #[trigger] fewer.commanders[i],
    ) by {
        if i < at {
            assert(commander_wf(l.commanders[i]));
        } else {
            assert(commander_wf(l.commanders[i + 1]));
        }
    }
    assert forall|s: usize| #[trigger]
        fewer.proposals.contains_key(s) <==> fewer.order.contains(s) by {
        assert(l.proposals.contains_key(s) <==> l.order.contains(s));
    }
}

/// A second-phase answer keeps the leader well formed.
pub proof fn lemma_phase2b_wf(
    l: LeaderView,
    slot: usize,
    ballot: Ballot,
    acceptor: NodeId,
    reported: Ballot,
)
    requires
        leader_wf(l),
    ensures
        leader_wf(leader_phase2b(l, slot, ballot, acceptor, reported).0),
{
    let at = commander_at(l.commanders, slot, ballot, l.commanders.len() as int);
    lemma_commander_at(l.commanders, slot, ballot, l.commanders.len() as int);
    if at >= 0 {
        let (next, verdict) = commander_step(l.commanders[at], acceptor, reported);
        assert(commander_wf(l.commanders[at]));
        lemma_strike(l.commanders[at].waiting, acceptor, l.commanders[at].waiting.len() as int);
        let fewer = LeaderView { commanders: l.commanders.remove(at), ..l };
        assert(leader_wf(fewer)) by {
            assert forall|i: int| 0 <= i < fewer.commanders.len() implies commander_wf(
                #[trigger] fewer.commanders[i],
            ) by {
                if i < at {
                    assert(commander_wf(l.commanders[i]));
                } else {
                    assert(commander_wf(l.commanders[i + 1]));
                }
            }
            assert forall|s: usize| #[trigger]
                fewer.proposals.contains_key(s) <==> fewer.order.contains(s) by {
                assert(l.proposals.contains_key(s) <==> l.order.contains(s));
            }
        }
        let same = LeaderView { commanders: l.commanders.update(at, next), ..l };
        assert(leader_wf(same)) by {
            assert forall|i: int| 0 <= i < same.commanders.len() implies commander_wf(
                #[trigger] same.commanders[i],
            ) by {
                if i != at {
                    assert(commander_wf(l.commanders[i]));
                }
            }
            assert forall|s: usize| #[trigger]
                same.proposals.contains_key(s) <==> same.order.contains(s) by {
                assert(l.proposals.contains_key(s) <==> l.order.contains(s));
            }
        }
        match verdict {
            CommanderVerdict::Preempted(higher) => {
                lemma_preempted_wf(fewer, higher);
            },
            _ => {},
        }
    }
}

/// Gathering proposals brings in no command from elsewhere.
pub proof fn lemma_gather_within(
    pvalues: Seq<Proposal>,
    more: Seq<Proposal>,
    n: int,
    known: Set<Command>,
)
    requires
        0 <= n <= more.len(),
        crate::paxos::proposals_within(pvalues, known),
        crate::paxos::proposals_within(more, known),
    ensures
        crate::paxos::proposals_within(gather_upto(pvalues, more, n), known),
    decreases n,
{
    if n > 0 {
        lemma_gather_within(pvalues, more, n - 1, known);
        let before = gather_upto(pvalues, more, n - 1);
        let after = gather_upto(pvalues, more, n);
        assert forall|i: int| 0 <= i < after.len() implies known.contains(
            (#[trigger] after[i]).command,
        ) by {
            if i < before.len() {
                assert(after[i] == before[i]);
            } else {
                assert(after[i] == more[n - 1]);
            }
        }
    }
}

/// Taking over commands brings in no command from elsewhere.
pub proof fn lemma_take_over_within(
    l: LeaderView,
    winners: Seq<Proposal>,
    n: int,
    known: Set<Command>,
)
    requires
        0 <= n <= winners.len(),
        leader_wf(l),
        leader_within(l, known),
        crate::paxos::proposals_within(winners, known),
    ensures
        leader_within(take_over(l, winners, n), known),
    decreases n,
{
    lemma_take_over(l, winners, n);
    if n > 0 {
        lemma_take_over_within(l, winners, n - 1, known);
        lemma_take_over(l, winners, n - 1);
        let before = take_over(l, winners, n - 1);
        let after = take_over(l, winners, n);
        assert(known.contains(winners[n - 1].command));
        assert forall|slot: usize| after.proposals.contains_key(slot) implies known.contains(
            #[trigger] after.proposals[slot],
        ) by {
            if slot != winners[n - 1].slot {
                assert(before.proposals.contains_key(slot));
            }
        }
        assert forall|i: int| 0 <= i < after.commanders.len() implies known.contains(
            (#[trigger] after.commanders[i]).proposal.command,
        ) by {
            assert(after.commanders[i] == l.commanders[i]);
        }
    }
}

/// Starting commanders for the leader's slots brings in no command from
/// elsewhere.
pub proof fn lemma_command_slots_within(l: LeaderView, ballot: Ballot, n: int, known: Set<Command>)
    requires
        0 <= n <= l.order.len(),
        leader_wf(l),
        leader_within(l, known),
    ensures
        leader_within(command_slots(l, ballot, n).0, known),
        crate::paxos::outbound_within(command_slots(l, ballot, n).1, known),
    decreases n,
{
    lemma_command_slots(l, ballot, n);
    if n > 0 {
        lemma_command_slots_within(l, ballot, n - 1, known);
        lemma_command_slots(l, ballot, n - 1);
        let (before, sent) = command_slots(l, ballot, n - 1);
        let (after, out) = command_slots(l, ballot, n);
        let slot = l.order[n - 1];
        assert(l.order.contains(slot));
        assert(l.proposals.contains_key(slot));
        assert(known.contains(l.proposals[slot]));
        assert forall|i: int| 0 <= i < after.commanders.len() implies known.contains(
            (#[trigger] after.commanders[i]).proposal.command,
        ) by {
            if i < before.commanders.len() {
                assert(after.commanders[i] == before.commanders[i]);
            }
        }
        assert forall|i: int| 0 <= i < out.len() implies crate::paxos::message_within(
            (#[trigger] out[i]).message,
            known,
        ) by {
            if i < sent.len() {
                assert(out[i] == sent[i]);
            }
        }
        assert forall|s: usize| after.proposals.contains_key(s) implies known.contains(
            #[trigger] after.proposals[s],
        ) by {
            assert(l.proposals.contains_key(s));
        }
    }
}

/// An adoption brings in no command from elsewhere.
pub proof fn lemma_adopted_within(
    l: LeaderView,
    ballot: Ballot,
    pvalues: Seq<Proposal>,
    known: Set<Command>,
)
    requires
        leader_wf(l),
        leader_within(l, known),
        crate::paxos::proposals_within(pvalues, known),
    ensures
        leader_within(leader_adopted(l, ballot, pvalues).0, known),
        crate::paxos::outbound_within(leader_adopted(l, ballot, pvalues).1, known),
{
    let winners = crate::paxos::acceptor::latest(pvalues);
    let at = crate::paxos::acceptor::lemma_latest_entries(pvalues, pvalues.len() as int);
    assert forall|i: int| 0 <= i < winners.len() implies known.contains(
        (#[trigger] winners[i]).command,
    ) by {
        assert(winners[i] == pvalues[at[i]]);
    }
    lemma_take_over(l, winners, winners.len() as int);
    lemma_take_over_within(l, winners, winners.len() as int, known);
    let merged = take_over(l, winners, winners.len() as int);
    lemma_command_slots_within(merged, ballot, merged.order.len() as int, known);
    let commanding = command_slots(merged, ballot, merged.order.len() as int).0;
    let after = leader_adopted(l, ballot, pvalues).0;
    assert forall|s: usize| after.proposals.contains_key(s) implies known.contains(
        #[trigger] after.proposals[s],
    ) by {
        assert(commanding.proposals.contains_key(s));
    }
    assert forall|i: int| 0 <= i < after.commanders.len() implies known.contains(
        (#[trigger] after.commanders[i]).proposal.command,
    ) by {
        assert(after.commanders[i] == commanding.commanders[i]);
    }
}

/// A preemption brings in no command at all.
pub proof fn lemma_preempted_within(l: LeaderView, reported: Ballot, known: Set<Command>)
    requires
        leader_within(l, known),
    ensures
        leader_within(leader_preempted(l, reported).0, known),
        crate::paxos::outbound_within(leader_preempted(l, reported).1, known),
{
    let after = leader_preempted(l, reported).0;
    assert forall|s: usize| after.proposals.contains_key(s) implies known.contains(
        #[trigger] after.proposals[s],
    ) by {
        assert(l.proposals.contains_key(s));
    }
    assert forall|i: int| 0 <= i < after.commanders.len() implies known.contains(
        (#[trigger] after.commanders[i]).proposal.command,
    ) by {
        assert(after.commanders[i] == l.commanders[i]);
    }
}

/// Frame: the leader's commands are those of its proposals, its scout and
/// its commanders.
proof fn lemma_within_frame(l: LeaderView, m: LeaderView, known: Set<Command>)
    requires
        leader_within(l, known),
        m.proposals == l.proposals,
        m.commanders == l.commanders,
        m.scout matches Some(s) ==> crate::paxos::proposals_within(s.pvalues, known),
    ensures
        leader_within(m, known),
{
    assert forall|s: usize| m.proposals.contains_key(s) implies known.contains(
        #[trigger] m.proposals[s],
    ) by {
        assert(l.proposals.contains_key(s));
    }
    assert forall|i: int| 0 <= i < m.commanders.len() implies known.contains(
        (#[trigger] m.commanders[i]).proposal.command,
    ) by {
        assert(m.commanders[i] == l.commanders[i]);
    }
}

/// A proposal brings in no command but its own.
pub proof fn lemma_propose_within(l: LeaderView, slot: usize, command: Command, known: Set<Command>)
    requires
        leader_within(l, known),
        known.contains(command),
    ensures
        leader_within(leader_propose(l, slot, command).0, known),
        crate::paxos::outbound_within(leader_propose(l, slot, command).1, known),
{
    let (after, out) = leader_propose(l, slot, command);
    assert forall|s: usize| after.proposals.contains_key(s) implies known.contains(
        #[trigger] after.proposals[s],
    ) by {
        if s != slot {
            assert(l.proposals.contains_key(s));
        }
    }
    assert forall|i: int| 0 <= i < after.commanders.len() implies known.contains(
        (#[trigger] after.commanders[i]).proposal.command,
    ) by {
        if i < l.commanders.len() {
            assert(after.commanders[i] == l.commanders[i]);
        }
    }
}

/// A first-phase answer brings in no command but those it reports.
pub proof fn lemma_phase1b_within(
    l: LeaderView,
    acceptor: NodeId,
    reported: Ballot,
    accepted: Seq<Proposal>,
    known: Set<Command>,
)
    requires
        leader_wf(l),
        leader_within(l, known),
        crate::paxos::proposals_within(accepted, known),
    ensures
        leader_within(leader_phase1b(l, acceptor, reported, accepted).0, known),
        crate::paxos::outbound_within(leader_phase1b(l, acceptor, reported, accepted).1, known),
{
    if l.scout is Some {
        let scout = l.scout.unwrap();
        let (next, verdict) = scout_step(scout, acceptor, reported, accepted);
        lemma_gather_within(scout.pvalues, accepted, accepted.len() as int, known);
        let idle = LeaderView { scout: None, ..l };
        lemma_wf_frame(l, idle);
        lemma_within_frame(l, idle, known);
        match verdict {
            ScoutVerdict::Waiting => {
                lemma_within_frame(l, LeaderView { scout: Some(next), ..l }, known);
            },
            ScoutVerdict::Adopted(b, pvalues) => {
                lemma_adopted_within(idle, b, pvalues, known);
            },
            ScoutVerdict::Preempted(higher) => {
                lemma_preempted_within(idle, higher, known);
            },
        }
    }
}

/// A second-phase answer brings in no command at all.
pub proof fn lemma_phase2b_within(
    l: LeaderView,
    slot: usize,
    ballot: Ballot,
    acceptor: NodeId,
    reported: Ballot,
    known: Set<Command>,
)
    requires
        leader_within(l, known),
    ensures
        leader_within(leader_phase2b(l, slot, ballot, acceptor, reported).0, known),
        crate::paxos::outbound_within(
            leader_phase2b(l, slot, ballot, acceptor, reported).1,
            known,
        ),
{
    let at = commander_at(l.commanders, slot, ballot, l.commanders.len() as int);
    lemma_commander_at(l.commanders, slot, ballot, l.commanders.len() as int);
    if at >= 0 {
        let (next, verdict) = commander_step(l.commanders[at], acceptor, reported);
        assert(known.contains(l.commanders[at].proposal.command));
        let fewer = LeaderView { commanders: l.commanders.remove(at), ..l };
        assert(leader_within(fewer, known)) by {
            assert forall|s: usize| fewer.proposals.contains_key(s) implies known.contains(
                #[trigger] fewer.proposals[s],
            ) by {
                assert(l.proposals.contains_key(s));
            }
            assert forall|i: int| 0 <= i < fewer.commanders.len() implies known.contains(
                (#[trigger] fewer.commanders[i]).proposal.command,
            ) by {
                if i < at {
                    assert(fewer.commanders[i] == l.commanders[i]);
                } else {
                    assert(fewer.commanders[i] == l.commanders[i + 1]);
                }
            }
        }
        let same = LeaderView { commanders: l.commanders.update(at, next), ..l };
        assert(leader_within(same, known)) by {
            assert forall|s: usize| same.proposals.contains_key(s) implies known.contains(
                #[trigger] same.proposals[s],
            ) by {
                assert(l.proposals.contains_key(s));
            }
            assert forall|i: int| 0 <= i < same.commanders.len() implies known.contains(
                (#[trigger] same.commanders[i]).proposal.command,
            ) by {
                if i != at {
                    assert(same.commanders[i] == l.commanders[i]);
                }
            }
        }
        match verdict {
            CommanderVerdict::Preempted(higher) => {
                lemma_preempted_within(fewer, higher, known);
            },
            _ => {},
        }
    }
}

/// What starting commanders for the leader's slots sends and adds: for
/// each of the first `n` slots of the order, in order, the request for the
/// slot's command under `ballot`, and a commander for it that waits for
/// every acceptor.
pub proof fn lemma_command_slots_sends(l: LeaderView, ballot: Ballot, n: int)
    requires
        0 <= n <= l.order.len(),
    ensures
        command_slots(l, ballot, n).1.len() == n,
        command_slots(l, ballot, n).0.commanders.len() == l.commanders.len() + n,
        forall|i: int|
            0 <= i < n ==> (#[trigger] command_slots(l, ballot, n).1[i]) == commander_request(
                l.id,
                Proposal { slot: l.order[i], ballot, command: l.proposals[l.order[i]] },
            ),
        forall|i: int|
            0 <= i < n ==> (#[trigger] command_slots(l, ballot, n).0.commanders[l.commanders.len()
                + i]) == new_commander(
                l.id,
                Proposal { slot: l.order[i], ballot, command: l.proposals[l.order[i]] },
                l.acceptors,
            ),
        forall|j: int|
            0 <= j < l.commanders.len() ==> (#[trigger] command_slots(
                l,
                ballot,
                n,
            ).0.commanders[j]) == l.commanders[j],
        command_slots(l, ballot, n).0 == (LeaderView {
            commanders: command_slots(l, ballot, n).0.commanders,
            ..l
        }),
    decreases n,
{
    if n > 0 {
        lemma_command_slots_sends(l, ballot, n - 1);
    }
}

/// Once a commander is found among the first `n`, it is the one found
/// among any more.
proof fn lemma_commander_at_stays(
    commanders: Seq<CommanderView>,
    slot: usize,
    ballot: Ballot,
    n: int,
    m: int,
)
    requires
        0 <= n <= m,
        commander_at(commanders, slot, ballot, n) >= 0,
    ensures
        commander_at(commanders, slot, ballot, m) == commander_at(commanders, slot, ballot, n),
    decreases m - n,
{
    if n < m {
        lemma_commander_at_stays(commanders, slot, ballot, n, m - 1);
    }
}

} // verus!
