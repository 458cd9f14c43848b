//! The replica: it takes requests from clients, proposes them into slots,
//! learns what was decided, and applies the decided commands to its state
//! machine in slot order.

use vstd::prelude::*;
use std::collections::BTreeMap;
use std::collections::VecDeque;
use crate::node::NodeId;
use crate::paxos::tables::Clients;
use crate::paxos::tables::Decisions;
use crate::paxos::Command;
use crate::paxos::Destination;
use crate::paxos::Endpoint;
use crate::paxos::Message;
use crate::paxos::MessageView;
use crate::paxos::Outbound;
use crate::paxos::OutboundView;
use crate::state::StateMachine;

verus! {

broadcast use vstd::laws_cmp::group_laws_cmp;

/// How far proposing may run ahead of applying.
pub const WINDOW: usize = 32;

/// The last slot a replica works with. It leaves room above it for the
/// window, so that slot arithmetic stays within `usize`.
pub const MAX_SLOT: usize = usize::MAX - WINDOW - 1;

/// Why a replica refused a decision.
#[derive(Debug, Clone, Copy, PartialEq, Eq, Structural)]
pub enum ReplicaError {
    /// The slot is 0 or lies above `MAX_SLOT`.
    InvalidSlot,
    /// The slot is already decided with another command.
    Conflict,
}

/// What stands for a replica in contracts.
pub ghost struct ReplicaView<S> {
    pub id: NodeId,
    /// The state the replica started from.
    pub initial: S,
    /// The state after the commands of the slots below `slot_out`.
    pub state: S,
    /// The next slot to propose into.
    pub slot_in: int,
    /// The next slot to apply.
    pub slot_out: int,
    /// Requests not yet proposed, oldest first.
    pub requests: Seq<Command>,
    /// Proposed and not yet decided, by slot.
    pub proposals: Map<usize, Command>,
    /// Decided commands by slot.
    pub decisions: Map<usize, Command>,
    /// Where to answer each client.
    pub clients: Map<usize, Endpoint>,
}

/// A replica over the state machine `S`.
pub struct Replica<S> {
    id: NodeId,
    state: S,
    slot_in: usize,
    slot_out: usize,
    requests: VecDeque<Command>,
    proposals: BTreeMap<usize, Command>,
    decisions: Decisions,
    clients: Clients,
    initial: Ghost<S>,
}

impl<S> View for Replica<S> {
    type V = ReplicaView<S>;

    closed spec fn view(&self) -> ReplicaView<S> {
        ReplicaView {
            id: self.id,
            initial: self.initial@,
            state: self.state,
            slot_in: self.slot_in as int,
            slot_out: self.slot_out as int,
            requests: self.requests@,
            proposals: self.proposals@,
            decisions: crate::paxos::tables::decided(self.decisions),
            clients: crate::paxos::tables::known_clients(self.clients),
        }
    }
}

/// A slot that a replica works with.
pub open spec fn valid_slot(slot: int) -> bool {
    1 <= slot <= MAX_SLOT
}

/// The state after applying, to `initial`, the commands that `decisions`
/// holds for the slots from 1 up to and without `upto`, in slot order.
pub open spec fn run<S: StateMachine>(initial: S, decisions: Map<usize, Command>, upto: int) -> S
    decreases upto,
{
    if upto <= 1 {
        initial
    } else {
        run(initial, decisions, upto - 1).step(decisions[(upto - 1) as usize]).0
    }
}

/// The text that goes with every response.
pub open spec fn response_text() -> Seq<char> {
    "Hello there"@
}

/// The proposal pump. While the window is open and a request waits: a slot
/// that is already decided is skipped, and any other slot takes the oldest
/// request, which is announced to every leader. `sent` collects what is
/// sent.
pub open spec fn pump<S>(r: ReplicaView<S>, sent: Seq<OutboundView>) -> (
    ReplicaView<S>,
    Seq<OutboundView>,
)
    decreases r.slot_out + WINDOW - r.slot_in,
{
    if r.slot_in < r.slot_out + WINDOW && r.requests.len() > 0 {
        let slot = r.slot_in as usize;
        if r.decisions.contains_key(slot) {
            pump(ReplicaView { slot_in: r.slot_in + 1, ..r }, sent)
        } else {
            let command = r.requests[0];
            pump(
                ReplicaView {
                    slot_in: r.slot_in + 1,
                    requests: r.requests.drop_first(),
                    proposals: r.proposals.insert(slot, command),
                    ..r
                },
                sent.push(
                    OutboundView {
                        to: Destination::Leaders,
                        message: MessageView::Propose(slot, command),
                    },
                ),
            )
        }
    } else {
        (r, sent)
    }
}

/// Applies `command` as the decision of slot `slot_out`: the state machine
/// moves on, `slot_out` grows by one, and the client that sent the command
/// is answered if its endpoint is known.
pub open spec fn perform<S: StateMachine>(
    r: ReplicaView<S>,
    command: Command,
    sent: Seq<OutboundView>,
) -> (ReplicaView<S>, Seq<OutboundView>) {
    let (state, reply) = r.state.step(command);
    let after = ReplicaView { state, slot_out: r.slot_out + 1, ..r };
    if r.clients.contains_key(command.client_id) {
        (
            after,
            sent.push(
                OutboundView {
                    to: Destination::Client(r.clients[command.client_id]),
                    message: MessageView::Response(
                        command.op_id,
                        response_text(),
                        crate::paxos::reply_view(reply),
                    ),
                },
            ),
        )
    } else {
        (after, sent)
    }
}

/// Applies decided commands for as long as slot `slot_out` is decided. A
/// proposal of ours for that slot is withdrawn, and goes back to the end of
/// the requests if another command was decided.
pub open spec fn advance<S: StateMachine>(r: ReplicaView<S>, sent: Seq<OutboundView>) -> (
    ReplicaView<S>,
    Seq<OutboundView>,
)
    decreases MAX_SLOT + 1 - r.slot_out,
{
    let slot = r.slot_out as usize;
    if valid_slot(r.slot_out) && r.decisions.contains_key(slot) {
        let decision = r.decisions[slot];
        let requests = if r.proposals.contains_key(slot) && r.proposals[slot]@ != decision@ {
            r.requests.push(r.proposals[slot])
        } else {
            r.requests
        };
        let withdrawn = ReplicaView { requests, proposals: r.proposals.remove(slot), ..r };
        let (performed, sent) = perform(withdrawn, decision, sent);
        advance(performed, sent)
    } else {
        (r, sent)
    }
}

/// The replica after a client's request that came from `from`, and what it
/// sends: the client's endpoint is recorded unless one is known, the
/// request joins the queue, and the pump runs.
pub open spec fn request<S>(r: ReplicaView<S>, command: Command, from: Endpoint) -> (
    ReplicaView<S>,
    Seq<OutboundView>,
) {
    let clients = if r.clients.contains_key(command.client_id) {
        r.clients
    } else {
        r.clients.insert(command.client_id, from)
    };
    pump(ReplicaView { clients, requests: r.requests.push(command), ..r }, Seq::empty())
}

/// The replica after the decision of `command` for `slot`, and what it
/// sends. A slot out of range and a second, different command for a decided
/// slot are refused. Otherwise the decision is stored (a repeated one
/// changes nothing), decided commands are applied as far as they go, and
/// the pump runs.
pub open spec fn decide<S: StateMachine>(
    r: ReplicaView<S>,
    slot: usize,
    command: Command,
) -> Result<
    (ReplicaView<S>, Seq<OutboundView>),
    ReplicaError,
> {
    if !valid_slot(slot as int) {
        Err(ReplicaError::InvalidSlot)
    } else if r.decisions.contains_key(slot) && r.decisions[slot]@ != command@ {
        Err(ReplicaError::Conflict)
    } else {
        let stored = if r.decisions.contains_key(slot) {
            r
        } else {
            ReplicaView { decisions: r.decisions.insert(slot, command), ..r }
        };
        let (advanced, sent) = advance(stored, Seq::empty());
        Ok(pump(advanced, sent))
    }
}

/// The replica that starts from `initial`: nothing requested, proposed or
/// decided, and slot 1 next in line.
pub open spec fn fresh<S>(id: NodeId, initial: S) -> ReplicaView<S> {
    ReplicaView {
        id,
        initial,
        state: initial,
        slot_in: 1,
        slot_out: 1,
        requests: Seq::empty(),
        proposals: Map::empty(),
        decisions: Map::empty(),
        clients: Map::empty(),
    }
}

/// The replica after `message` that came from `from`, and what it sends.
/// A replica takes requests and decisions; any other message changes
/// nothing and sends nothing.
pub open spec fn replica_step<S: StateMachine>(
    r: ReplicaView<S>,
    from: Endpoint,
    message: MessageView,
) -> Result<(ReplicaView<S>, Seq<OutboundView>), ReplicaError> {
    match message {
        MessageView::Request(command) => Ok(request(r, command, from)),
        MessageView::Decision(slot, command) => decide(r, slot, command),
        _ => Ok((r, Seq::empty())),
    }
}

/// What holds of a replica at every moment: the counters are in range and
/// at most a window apart, the slots below `slot_out` are all decided, our
/// proposals lie between the two counters, and the state is the initial
/// state after the decided commands below `slot_out`, in slot order.
pub open spec fn replica_core<S: StateMachine>(r: ReplicaView<S>) -> bool {
    &&& 1 <= r.slot_in
    &&& 1 <= r.slot_out <= MAX_SLOT + 1
    &&& r.slot_in - r.slot_out <= WINDOW
    &&& forall|k: usize| #[trigger] r.decisions.contains_key(k) ==> valid_slot(k as int)
    &&& forall|k: usize| 1 <= k < r.slot_out ==> #[trigger] r.decisions.contains_key(k)
    &&& forall|k: usize| #[trigger] r.proposals.contains_key(k) ==> r.slot_out <= k < r.slot_in
    &&& r.state == run(r.initial, r.decisions, r.slot_out)
}

/// What holds of a replica between two messages: beyond `replica_core`,
/// slot `slot_out` is not decided yet, and the pump has nothing to do.
pub open spec fn replica_wf<S: StateMachine>(r: ReplicaView<S>) -> bool {
    &&& replica_core(r)
    &&& !r.decisions.contains_key(r.slot_out as usize)
    &&& r.requests.len() == 0 || r.slot_in >= r.slot_out + WINDOW
}

/// Every command that the replica holds is one of `known`.
pub open spec fn replica_within<S>(r: ReplicaView<S>, known: Set<Command>) -> bool {
    &&& forall|i: int| 0 <= i < r.requests.len() ==> known.contains(#[trigger] r.requests[i])
    &&& forall|slot: usize|
        r.proposals.contains_key(slot) ==> known.contains(#[trigger] r.proposals[slot])
    &&& forall|slot: usize|
        r.decisions.contains_key(slot) ==> known.contains(#[trigger] r.decisions[slot])
}

/// The replica after the decisions of `delivered`, one after the other;
/// a decision that is refused changes nothing.
pub open spec fn deliver<S: StateMachine>(
    r: ReplicaView<S>,
    delivered: Seq<(usize, Command)>,
) -> ReplicaView<S>
    decreases delivered.len(),
{
    if delivered.len() == 0 {
        r
    } else {
        let before = deliver(r, delivered.drop_last());
        match decide(before, delivered.last().0, delivered.last().1) {
            Ok((after, _)) => after,
            Err(_) => before,
        }
    }
}

/// The answers that go to the clients for the slots from `from` up to and
/// without `upto`, in slot order, when the log `log` is applied from
/// `initial`: one for each slot whose command comes from a client in
/// `clients`.
pub open spec fn answers<S: StateMachine>(
    initial: S,
    log: Map<usize, Command>,
    clients: Map<usize, Endpoint>,
    from: int,
    upto: int,
) -> Seq<OutboundView>
    decreases upto - from,
{
    if upto <= from {
        Seq::empty()
    } else {
        let before = answers(initial, log, clients, from, upto - 1);
        let command = log[(upto - 1) as usize];
        if clients.contains_key(command.client_id) {
            before.push(
                OutboundView {
                    to: Destination::Client(clients[command.client_id]),
                    message: MessageView::Response(
                        command.op_id,
                        response_text(),
                        crate::paxos::reply_view(run(initial, log, upto - 1).step(command).1),
                    ),
                },
            )
        } else {
            before
        }
    }
}

/// What the replica sends over the decisions of `delivered`, one after the
/// other.
pub open spec fn deliver_sent<S: StateMachine>(
    r: ReplicaView<S>,
    delivered: Seq<(usize, Command)>,
) -> Seq<OutboundView>
    decreases delivered.len(),
{
    if delivered.len() == 0 {
        Seq::empty()
    } else {
        let before = deliver(r, delivered.drop_last());
        let sent = deliver_sent(r, delivered.drop_last());
        match decide(before, delivered.last().0, delivered.last().1) {
            Ok((_, out)) => sent + out,
            Err(_) => sent,
        }
    }
}

/// The replica waits for nothing but decisions from `log`: no request is
/// queued, and what it proposed for a slot is what the log holds for it.
pub open spec fn awaits<S>(r: ReplicaView<S>, log: Map<usize, Command>) -> bool {
    &&& r.requests.len() == 0
    &&& forall|k: usize| #[trigger]
        r.proposals.contains_key(k) ==> log.contains_key(k) && r.proposals[k]@ == log[k]@
    &&& forall|k: usize| #[trigger]
        r.decisions.contains_key(k) ==> log.contains_key(k) && r.decisions[k] == log[k]
}

/// Every message of `out` is a proposal or a response.
pub open spec fn only_proposes_and_responds(out: Seq<OutboundView>) -> bool {
    forall|i: int|
        0 <= i < out.len() ==> (#[trigger] out[i]).message is Propose || out[i].message is Response
}

impl<S: StateMachine> Replica<S> {
    /// What holds of a replica between two messages.
    pub open spec fn wf(&self) -> bool {
        replica_wf(self@)
    }

    /// A replica that starts from `initial`.
    pub fn new(id: NodeId, initial: S) -> (r: Replica<S>)
        ensures
            r@ == fresh(id, initial),
            r.wf(),
    {
        Replica {
            id,
            initial: Ghost(initial),
            state: initial,
            slot_in: 1,
            slot_out: 1,
            requests: VecDeque::new(),
            proposals: BTreeMap::new(),
            decisions: Decisions::new(),
            clients: Clients::new(),
        }
    }

    /// Runs the proposal pump and appends what it sends to `out`.
    fn propose(&mut self, out: &mut Vec<Outbound>)
        requires
            replica_core(old(self)@),
        ensures
            (final(self)@, crate::paxos::outbound_views(final(out)@)) == pump(
                old(self)@,
                crate::paxos::outbound_views(old(out)@),
            ),
    {
        while self.slot_in < self.slot_out + WINDOW && self.requests.len() > 0
            invariant
                1 <= self.slot_in,
                1 <= self.slot_out <= MAX_SLOT + 1,
                self.slot_in - self.slot_out <= WINDOW,
                pump(self@, crate::paxos::outbound_views(out@)) == pump(
                    old(self)@,
                    crate::paxos::outbound_views(old(out)@),
                ),
            decreases self.slot_out + WINDOW - self.slot_in,
        {
            if self.decisions.get(self.slot_in).is_none() {
                let command = self.requests.pop_front().unwrap();
                let message = Message::Propose(self.slot_in, command.clone());
                let sending = Outbound { to: Destination::Leaders, message };
                proof {
                    lemma_views_push(out@, sending);
                }
                self.proposals.insert(self.slot_in, command);
                out.push(sending);
            }
            self.slot_in += 1;
        }
    }

    /// Applies `command` as the decision of slot `slot_out` and appends the
    /// answer to the client, if its endpoint is known, to `out`.
    fn perform(&mut self, command: &Command, out: &mut Vec<Outbound>)
        requires
            old(self).slot_out <= MAX_SLOT,
        ensures
            (final(self)@, crate::paxos::outbound_views(final(out)@)) == perform(
                old(self)@,
                *command,
                crate::paxos::outbound_views(old(out)@),
            ),
    {
        let addr = self.clients.get(command.client_id);
        let reply = self.state.apply(command);
        self.slot_out += 1;
        if let Some(endpoint) = addr {
            let message = Message::Response(command.op_id, response_string(), reply);
            let sending = Outbound { to: Destination::Client(endpoint), message };
            proof {
                lemma_views_push(out@, sending);
            }
            out.push(sending);
        }
    }

    /// Applies decided commands for as long as slot `slot_out` is decided,
    /// and appends the answers to `out`.
    fn apply_decided(&mut self, out: &mut Vec<Outbound>)
        requires
            replica_core(old(self)@),
        ensures
            (final(self)@, crate::paxos::outbound_views(final(out)@)) == advance(
                old(self)@,
                crate::paxos::outbound_views(old(out)@),
            ),
    {
        loop
            invariant
                replica_core(self@),
                advance(self@, crate::paxos::outbound_views(out@)) == advance(
                    old(self)@,
                    crate::paxos::outbound_views(old(out)@),
                ),
            ensures
                (self@, crate::paxos::outbound_views(out@)) == advance(
                    old(self)@,
                    crate::paxos::outbound_views(old(out)@),
                ),
            decreases MAX_SLOT + 1 - self.slot_out,
        {
            let decision = match self.decisions.get(self.slot_out) {
                Some(c) => c.clone(),
                None => {
                    break ;
                },
            };
            let ghost before = self@;
            let ghost sent = crate::paxos::outbound_views(out@);
            if let Some(ours) = self.proposals.remove(&self.slot_out) {
                if ours != decision {
                    self.requests.push_back(ours);
                }
            }
            self.perform(&decision, out);
            proof {
                let slot = before.slot_out as usize;
                let requests = if before.proposals.contains_key(slot) && before.proposals[slot]@
                    != decision@ {
                    before.requests.push(before.proposals[slot])
                } else {
                    before.requests
                };
                let withdrawn = ReplicaView {
                    requests,
                    proposals: before.proposals.remove(slot),
                    ..before
                };
                assert(replica_core(perform(withdrawn, decision, sent).0)) by {
                    assert forall|k: usize| 1 <= k < before.slot_out + 1 implies #[trigger]
                        before.decisions.contains_key(k) by {
                        if k != slot {
                            assert(before.decisions.contains_key(k));
                        }
                    }
                }
            }
        }
    }

    /// Takes a client's request that came from `from`: the client's
    /// endpoint is recorded unless one is known, the request joins the
    /// queue, and the pump runs. Hands back what to send.
    pub fn on_request(&mut self, command: Command, from: Endpoint) -> (out: Vec<Outbound>)
        requires
            old(self).wf(),
        ensures
            final(self).wf(),
            (final(self)@, crate::paxos::outbound_views(out@)) == request(
                old(self)@,
                command,
                from,
            ),
            final(self)@.slot_in - final(self)@.slot_out <= WINDOW,
            final(self)@.state == run(
                final(self)@.initial,
                final(self)@.decisions,
                final(self)@.slot_out,
            ),
    {
        proof {
            lemma_request_keeps_wf(self@, command, from);
        }
        let mut out: Vec<Outbound> = Vec::new();
        assert(crate::paxos::outbound_views(out@) =~= Seq::empty());
        self.clients.try_insert(command.client_id, from);
        self.requests.push_back(command);
        self.propose(&mut out);
        out
    }

    /// Takes the decision of `command` for `slot`. A slot out of range and
    /// a second, different command for a decided slot are refused without
    /// a change. Otherwise the decision is stored, decided commands are
    /// applied as far as they go, and the pump runs. Hands back what to
    /// send.
    pub fn on_decision(&mut self, slot: usize, command: Command) -> (r: Result<
        Vec<Outbound>,
        ReplicaError,
    >)
        requires
            old(self).wf(),
        ensures
            final(self).wf(),
            match decide(old(self)@, slot, command) {
                Ok((after, sent)) => r matches Ok(out) && final(self)@ == after
                    && crate::paxos::outbound_views(out@) == sent,
                Err(e) => r == Err::<Vec<Outbound>, ReplicaError>(e) && final(self)@ == old(
                    self,
                )@,
            },
            final(self)@.slot_in - final(self)@.slot_out <= WINDOW,
            final(self)@.state == run(
                final(self)@.initial,
                final(self)@.decisions,
                final(self)@.slot_out,
            ),
    {
        if slot < 1 || slot > MAX_SLOT {
            return Err(ReplicaError::InvalidSlot);
        }
        let known = match self.decisions.get(slot) {
            Some(held) => {
                if *held != command {
                    return Err(ReplicaError::Conflict);
                }
                true
            },
            None => false,
        };
        proof {
            lemma_decide_keeps_wf(self@, slot, command);
        }
        let ghost stored = if self@.decisions.contains_key(slot) {
            self@
        } else {
            ReplicaView { decisions: self@.decisions.insert(slot, command), ..self@ }
        };
        if !known {
            proof {
                assert(slot >= self@.slot_out) by {
                    if slot < self@.slot_out {
                        assert(self@.decisions.contains_key(slot));
                    }
                }
                lemma_run_ignores_later(
                    self@.initial,
                    self@.decisions,
                    slot,
                    command,
                    self@.slot_out,
                );
                assert forall|k: usize| 1 <= k < stored.slot_out implies #[trigger]
                    stored.decisions.contains_key(k) by {
                    assert(self@.decisions.contains_key(k));
                }
            }
            self.decisions.insert(slot, command);
        }
        assert(self@ == stored);
        let mut out: Vec<Outbound> = Vec::new();
        assert(crate::paxos::outbound_views(out@) =~= Seq::empty());
        self.apply_decided(&mut out);
        proof {
            lemma_advance(stored, Seq::empty());
        }
        self.propose(&mut out);
        Ok(out)
    }

    /// Handles one inbound message that came from `from`. Requests and
    /// decisions are taken; any other message is dropped without a change.
    pub fn handle(&mut self, from: Endpoint, message: Message) -> (r: Result<
        Vec<Outbound>,
        ReplicaError,
    >)
        requires
            old(self).wf(),
        ensures
            final(self).wf(),
            match replica_step(old(self)@, from, message@) {
                Ok((after, sent)) => r matches Ok(out) && final(self)@ == after
                    && crate::paxos::outbound_views(out@) == sent,
                Err(e) => r == Err::<Vec<Outbound>, ReplicaError>(e) && final(self)@ == old(
                    self,
                )@,
            },
            final(self)@.slot_in - final(self)@.slot_out <= WINDOW,
            final(self)@.state == run(
                final(self)@.initial,
                final(self)@.decisions,
                final(self)@.slot_out,
            ),
    {
        match message {
            Message::Request(command) => Ok(self.on_request(command, from)),
            Message::Decision(slot, command) => self.on_decision(slot, command),
            _ => {
                let out: Vec<Outbound> = Vec::new();
                assert(crate::paxos::outbound_views(out@) =~= Seq::empty());
                Ok(out)
            },
        }
    }

    /// This replica's identifier.
    pub fn id(&self) -> (r: NodeId)
        ensures
            r == self@.id,
    {
        self.id
    }

    /// The next slot to propose into.
    pub fn slot_in(&self) -> (r: usize)
        ensures
            r == self@.slot_in,
    {
        self.slot_in
    }

    /// The next slot to apply.
    pub fn slot_out(&self) -> (r: usize)
        ensures
            r == self@.slot_out,
    {
        self.slot_out
    }

    /// The state after the commands applied so far.
    pub fn state(&self) -> (r: &S)
        ensures
            *r == self@.state,
    {
        &self.state
    }

    /// How many requests wait to be proposed.
    pub fn pending(&self) -> (r: usize)
        ensures
            r == self@.requests.len(),
    {
        self.requests.len()
    }

    /// The command decided for `slot`, if the replica knows one.
    pub fn decision(&self, slot: usize) -> (r: Option<&Command>)
        ensures
            r is Some <==> self@.decisions.contains_key(slot),
            r matches Some(c) ==> *c == self@.decisions[slot],
    {
        self.decisions.get(slot)
    }

    /// The command this replica proposed for `slot`, while it is undecided.
    pub fn proposal(&self, slot: usize) -> (r: Option<&Command>)
        ensures
            r is Some <==> self@.proposals.contains_key(slot),
            r matches Some(c) ==> *c == self@.proposals[slot],
    {
        self.proposals.get(&slot)
    }

    /// The endpoint recorded for `client`, if there is one.
    pub fn client(&self, client: usize) -> (r: Option<Endpoint>)
        ensures
            r is Some <==> self@.clients.contains_key(client),
            r matches Some(e) ==> e == self@.clients[client],
    {
        self.clients.get(client)
    }

    /// How many decided commands have been applied.
    pub fn applied(&self) -> (r: usize)
        requires
            self.wf(),
        ensures
            r == self@.slot_out - 1,
    {
        self.slot_out - 1
    }

    /// Whether at least `target` decided commands have been applied.
    pub fn finished(&self, target: usize) -> (r: bool)
        requires
            self.wf(),
        ensures
            r == (self@.slot_out - 1 >= target),
    {
        self.slot_out - 1 >= target
    }
}

/// The text that goes with every response, as a string.
fn response_string() -> (s: String)
    ensures
        s@ == response_text(),
{
    "Hello there".to_string()
}

/// Storing a decision for a slot that is not decided yet leaves the state
/// reached so far as it was.
proof fn lemma_run_ignores_later<S: StateMachine>(
    initial: S,
    decisions: Map<usize, Command>,
    slot: usize,
    command: Command,
    upto: int,
)
    requires
        upto <= slot,
    ensures
        run(initial, decisions.insert(slot, command), upto) == run(initial, decisions, upto),
    decreases upto,
{
    if upto > 1 {
        lemma_run_ignores_later(initial, decisions, slot, command, upto - 1);
    }
}

/// The pump keeps what holds at every moment, touches neither the state
/// nor the decisions nor `slot_out`, and leaves nothing for itself to do.
pub proof fn lemma_pump<S: StateMachine>(r: ReplicaView<S>, sent: Seq<OutboundView>)
    requires
        replica_core(r),
    ensures
        replica_core(pump(r, sent).0),
        pump(r, sent).0.decisions == r.decisions,
        pump(r, sent).0.slot_out == r.slot_out,
        pump(r, sent).0.state == r.state,
        pump(r, sent).0.initial == r.initial,
        pump(r, sent).0.requests.len() == 0 || pump(r, sent).0.slot_in >= r.slot_out + WINDOW,
    decreases r.slot_out + WINDOW - r.slot_in,
{
    if r.slot_in < r.slot_out + WINDOW && r.requests.len() > 0 {
        let slot = r.slot_in as usize;
        if r.decisions.contains_key(slot) {
            lemma_pump(ReplicaView { slot_in: r.slot_in + 1, ..r }, sent);
        } else {
            let command = r.requests[0];
            let next = ReplicaView {
                slot_in: r.slot_in + 1,
                requests: r.requests.drop_first(),
                proposals: r.proposals.insert(slot, command),
                ..r
            };
            let out = sent.push(
                OutboundView {
                    to: Destination::Leaders,
                    message: MessageView::Propose(slot, command),
                },
            );
            assert(r.slot_out <= r.slot_in);
            lemma_pump(next, out);
        }
    }
}

/// Applying decided commands keeps what holds at every moment, touches
/// neither the decisions nor `slot_in`, and stops at a slot that is not
/// decided.
pub proof fn lemma_advance<S: StateMachine>(r: ReplicaView<S>, sent: Seq<OutboundView>)
    requires
        replica_core(r),
    ensures
        replica_core(advance(r, sent).0),
        advance(r, sent).0.decisions == r.decisions,
        advance(r, sent).0.slot_in == r.slot_in,
        advance(r, sent).0.initial == r.initial,
        advance(r, sent).0.slot_out >= r.slot_out,
        !advance(r, sent).0.decisions.contains_key(advance(r, sent).0.slot_out as usize),
    decreases MAX_SLOT + 1 - r.slot_out,
{
    let slot = r.slot_out as usize;
    if valid_slot(r.slot_out) && r.decisions.contains_key(slot) {
        let decision = r.decisions[slot];
        let requests = if r.proposals.contains_key(slot) && r.proposals[slot]@ != decision@ {
            r.requests.push(r.proposals[slot])
        } else {
            r.requests
        };
        let withdrawn = ReplicaView { requests, proposals: r.proposals.remove(slot), ..r };
        let (performed, out) = perform(withdrawn, decision, sent);
        assert(replica_core(performed)) by {
            assert forall|k: usize| 1 <= k < performed.slot_out implies #[trigger]
                performed.decisions.contains_key(k) by {
                if k == slot {
                } else {
                    assert(r.decisions.contains_key(k));
                }
            }
        }
        lemma_advance(performed, out);
    }
}

/// A request leaves a well-formed replica well formed.
pub proof fn lemma_request_keeps_wf<S: StateMachine>(
    r: ReplicaView<S>,
    command: Command,
    from: Endpoint,
)
    requires
        replica_wf(r),
    ensures
        replica_wf(request(r, command, from).0),
        request(r, command, from).0.initial == r.initial,
{
    let clients = if r.clients.contains_key(command.client_id) {
        r.clients
    } else {
        r.clients.insert(command.client_id, from)
    };
    lemma_pump(ReplicaView { clients, requests: r.requests.push(command), ..r }, Seq::empty());
}

/// A decision that is taken leaves a well-formed replica well formed, and
/// the slot then holds a command with the same content.
pub proof fn lemma_decide_keeps_wf<S: StateMachine>(
    r: ReplicaView<S>,
    slot: usize,
    command: Command,
)
    requires
        replica_wf(r),
        decide(r, slot, command) is Ok,
    ensures
        replica_wf(decide(r, slot, command).unwrap().0),
        decide(r, slot, command).unwrap().0.initial == r.initial,
        decide(r, slot, command).unwrap().0.decisions.contains_key(slot),
        decide(r, slot, command).unwrap().0.decisions[slot]@ == command@,
{
    let stored = if r.decisions.contains_key(slot) {
        r
    } else {
        ReplicaView { decisions: r.decisions.insert(slot, command), ..r }
    };
    if !r.decisions.contains_key(slot) {
        assert(slot >= r.slot_out) by {
            if slot < r.slot_out {
                assert(r.decisions.contains_key(slot));
            }
        }
        lemma_run_ignores_later(r.initial, r.decisions, slot, command, r.slot_out);
        assert forall|k: usize| 1 <= k < stored.slot_out implies #[trigger]
            stored.decisions.contains_key(k) by {
            assert(r.decisions.contains_key(k));
        }
    }
    assert(replica_core(stored));
    lemma_advance(stored, Seq::empty());
    let (advanced, sent) = advance(stored, Seq::empty());
    lemma_pump(advanced, sent);
}

/// Delivering a decision a second time changes nothing and sends nothing.
pub proof fn lemma_decision_is_idempotent<S: StateMachine>(
    r: ReplicaView<S>,
    slot: usize,
    command: Command,
)
    requires
        replica_wf(r),
        decide(r, slot, command) is Ok,
    ensures
        decide(decide(r, slot, command).unwrap().0, slot, command) == Ok::<
            (ReplicaView<S>, Seq<OutboundView>),
            ReplicaError,
        >((decide(r, slot, command).unwrap().0, Seq::empty())),
{
    lemma_decide_keeps_wf(r, slot, command);
}

/// The window bounds how far proposing runs ahead of applying, after every
/// message.
pub proof fn lemma_outstanding_is_bounded<S: StateMachine>(
    r: ReplicaView<S>,
    from: Endpoint,
    message: MessageView,
)
    requires
        replica_wf(r),
        replica_step(r, from, message) is Ok,
    ensures
        replica_wf(replica_step(r, from, message).unwrap().0),
        replica_step(r, from, message).unwrap().0.slot_in - replica_step(
            r,
            from,
            message,
        ).unwrap().0.slot_out <= WINDOW,
{
    match message {
        MessageView::Request(command) => {
            lemma_request_keeps_wf(r, command, from);
        },
        MessageView::Decision(slot, command) => {
            lemma_decide_keeps_wf(r, slot, command);
        },
        _ => {},
    }
}

/// After every message the state is the initial state after the decided
/// commands of the slots below `slot_out`, applied in slot order, and each
/// of those slots is decided.
pub proof fn lemma_applied_in_slot_order<S: StateMachine>(
    r: ReplicaView<S>,
    from: Endpoint,
    message: MessageView,
)
    requires
        replica_wf(r),
        replica_step(r, from, message) is Ok,
    ensures
        ({
            let after = replica_step(r, from, message).unwrap().0;
            &&& after.state == run(after.initial, after.decisions, after.slot_out)
            &&& after.initial == r.initial
            &&& forall|k: usize| 1 <= k < after.slot_out ==> #[trigger] after.decisions.contains_key(k)
        }),
{
    match message {
        MessageView::Request(command) => {
            lemma_request_keeps_wf(r, command, from);
        },
        MessageView::Decision(slot, command) => {
            lemma_decide_keeps_wf(r, slot, command);
        },
        _ => {},
    }
}

/// The pump brings in no command from elsewhere.
pub proof fn lemma_pump_within<S>(r: ReplicaView<S>, sent: Seq<OutboundView>, known: Set<Command>)
    requires
        replica_within(r, known),
        crate::paxos::outbound_within(sent, known),
    ensures
        replica_within(pump(r, sent).0, known),
        crate::paxos::outbound_within(pump(r, sent).1, known),
    decreases r.slot_out + WINDOW - r.slot_in,
{
    if r.slot_in < r.slot_out + WINDOW && r.requests.len() > 0 {
        let slot = r.slot_in as usize;
        if r.decisions.contains_key(slot) {
            lemma_pump_within(ReplicaView { slot_in: r.slot_in + 1, ..r }, sent, known);
        } else {
            let command = r.requests[0];
            let next = ReplicaView {
                slot_in: r.slot_in + 1,
                requests: r.requests.drop_first(),
                proposals: r.proposals.insert(slot, command),
                ..r
            };
            let out = sent.push(
                OutboundView {
                    to: Destination::Leaders,
                    message: MessageView::Propose(slot, command),
                },
            );
            assert(known.contains(command));
            assert forall|i: int| 0 <= i < next.requests.len() implies known.contains(
                #[trigger] next.requests[i],
            ) by {
                assert(next.requests[i] == r.requests[i + 1]);
            }
            assert forall|s: usize| next.proposals.contains_key(s) implies known.contains(
                #[trigger] next.proposals[s],
            ) by {
                if s != slot {
                    assert(r.proposals.contains_key(s));
                }
            }
            assert forall|i: int| 0 <= i < out.len() implies crate::paxos::message_within(
                (#[trigger] out[i]).message,
                known,
            ) by {
                if i < sent.len() {
                    assert(out[i] == sent[i]);
                }
            }
            lemma_pump_within(next, out, known);
        }
    }
}

/// Applying decided commands brings in no command from elsewhere.
pub proof fn lemma_advance_within<S: StateMachine>(
    r: ReplicaView<S>,
    sent: Seq<OutboundView>,
    known: Set<Command>,
)
    requires
        replica_within(r, known),
        crate::paxos::outbound_within(sent, known),
    ensures
        replica_within(advance(r, sent).0, known),
        crate::paxos::outbound_within(advance(r, sent).1, known),
    decreases MAX_SLOT + 1 - r.slot_out,
{
    let slot = r.slot_out as usize;
    if valid_slot(r.slot_out) && r.decisions.contains_key(slot) {
        let decision = r.decisions[slot];
        let requests = if r.proposals.contains_key(slot) && r.proposals[slot]@ != decision@ {
            r.requests.push(r.proposals[slot])
        } else {
            r.requests
        };
        let withdrawn = ReplicaView { requests, proposals: r.proposals.remove(slot), ..r };
        let (performed, out) = perform(withdrawn, decision, sent);
        assert forall|i: int| 0 <= i < performed.requests.len() implies known.contains(
            #[trigger] performed.requests[i],
        ) by {
            if i < r.requests.len() {
                assert(performed.requests[i] == r.requests[i]);
            } else {
                assert(performed.requests[i] == r.proposals[slot]);
            }
        }
        assert forall|s: usize| performed.proposals.contains_key(s) implies known.contains(
            #[trigger] performed.proposals[s],
        ) by {
            assert(r.proposals.contains_key(s));
        }
        assert forall|i: int| 0 <= i < out.len() implies crate::paxos::message_within(
            (#[trigger] out[i]).message,
            known,
        ) by {
            if i < sent.len() {
                assert(out[i] == sent[i]);
            }
        }
        lemma_advance_within(performed, out, known);
    }
}

/// A replica invents no command: whatever it takes, what it holds and what
/// it sends is among the commands it held and the one that came with what
/// it took.
pub proof fn lemma_replica_invents_nothing<S: StateMachine>(
    r: ReplicaView<S>,
    from: Endpoint,
    message: MessageView,
    known: Set<Command>,
)
    requires
        replica_within(r, known),
        crate::paxos::message_within(message, known),
        replica_step(r, from, message) is Ok,
    ensures
        replica_within(replica_step(r, from, message).unwrap().0, known),
        crate::paxos::outbound_within(replica_step(r, from, message).unwrap().1, known),
{
    match message {
        MessageView::Request(command) => {
            let clients = if r.clients.contains_key(command.client_id) {
                r.clients
            } else {
                r.clients.insert(command.client_id, from)
            };
            let queued = ReplicaView { clients, requests: r.requests.push(command), ..r };
            assert forall|i: int| 0 <= i < queued.requests.len() implies known.contains(
                #[trigger] queued.requests[i],
            ) by {
                if i < r.requests.len() {
                    assert(queued.requests[i] == r.requests[i]);
                }
            }
            lemma_pump_within(queued, Seq::empty(), known);
        },
        MessageView::Decision(slot, command) => {
            let stored = if r.decisions.contains_key(slot) {
                r
            } else {
                ReplicaView { decisions: r.decisions.insert(slot, command), ..r }
            };
            assert forall|s: usize| stored.decisions.contains_key(s) implies known.contains(
                #[trigger] stored.decisions[s],
            ) by {
                if s != slot {
                    assert(r.decisions.contains_key(s));
                }
            }
            lemma_advance_within(stored, Seq::empty(), known);
            let (advanced, sent) = advance(stored, Seq::empty());
            lemma_pump_within(advanced, sent, known);
        },
        _ => {},
    }
}

/// The pump sends proposals only, and leaves the decisions as they are.
pub proof fn lemma_pump_sends<S>(r: ReplicaView<S>, sent: Seq<OutboundView>)
    requires
        only_proposes_and_responds(sent),
    ensures
        only_proposes_and_responds(pump(r, sent).1),
        pump(r, sent).0.decisions == r.decisions,
    decreases r.slot_out + WINDOW - r.slot_in,
{
    if r.slot_in < r.slot_out + WINDOW && r.requests.len() > 0 {
        let slot = r.slot_in as usize;
        if r.decisions.contains_key(slot) {
            lemma_pump_sends(ReplicaView { slot_in: r.slot_in + 1, ..r }, sent);
        } else {
            let command = r.requests[0];
            let next = ReplicaView {
                slot_in: r.slot_in + 1,
                requests: r.requests.drop_first(),
                proposals: r.proposals.insert(slot, command),
                ..r
            };
            let out = sent.push(
                OutboundView {
                    to: Destination::Leaders,
                    message: MessageView::Propose(slot, command),
                },
            );
            assert forall|i: int| 0 <= i < out.len() implies (#[trigger] out[i]).message is Propose
                || out[i].message is Response by {
                if i < sent.len() {
                    assert(out[i] == sent[i]);
                }
            }
            lemma_pump_sends(next, out);
        }
    }
}

/// Applying decided commands sends responses only, and leaves the
/// decisions as they are.
pub proof fn lemma_advance_sends<S: StateMachine>(r: ReplicaView<S>, sent: Seq<OutboundView>)
    requires
        only_proposes_and_responds(sent),
    ensures
        only_proposes_and_responds(advance(r, sent).1),
        advance(r, sent).0.decisions == r.decisions,
    decreases MAX_SLOT + 1 - r.slot_out,
{
    let slot = r.slot_out as usize;
    if valid_slot(r.slot_out) && r.decisions.contains_key(slot) {
        let decision = r.decisions[slot];
        let requests = if r.proposals.contains_key(slot) && r.proposals[slot]@ != decision@ {
            r.requests.push(r.proposals[slot])
        } else {
            r.requests
        };
        let withdrawn = ReplicaView { requests, proposals: r.proposals.remove(slot), ..r };
        let (performed, out) = perform(withdrawn, decision, sent);
        assert forall|i: int| 0 <= i < out.len() implies (#[trigger] out[i]).message is Propose
            || out[i].message is Response by {
            if i < sent.len() {
                assert(out[i] == sent[i]);
            }
        }
        lemma_advance_sends(performed, out);
    }
}

/// A replica sends proposals and responses only. A request leaves its
/// decisions as they are, and a decision adds at most the decided command
/// for the decided slot.
pub proof fn lemma_replica_sends<S: StateMachine>(
    r: ReplicaView<S>,
    from: Endpoint,
    slot: usize,
    command: Command,
)
    ensures
        only_proposes_and_responds(request(r, command, from).1),
        request(r, command, from).0.decisions == r.decisions,
        decide(r, slot, command) matches Ok(done) ==> only_proposes_and_responds(done.1)
            && done.0.decisions == if r.decisions.contains_key(slot) {
            r.decisions
        } else {
            r.decisions.insert(slot, command)
        },
{
    let clients = if r.clients.contains_key(command.client_id) {
        r.clients
    } else {
        r.clients.insert(command.client_id, from)
    };
    lemma_pump_sends(
        ReplicaView { clients, requests: r.requests.push(command), ..r },
        Seq::empty(),
    );
    if decide(r, slot, command) is Ok {
        let stored = if r.decisions.contains_key(slot) {
            r
        } else {
            ReplicaView { decisions: r.decisions.insert(slot, command), ..r }
        };
        lemma_advance_sends(stored, Seq::empty());
        let (advanced, sent) = advance(stored, Seq::empty());
        lemma_pump_sends(advanced, sent);
    }
}

/// Slots that rise strictly within a range are no more than the range
/// holds.
proof fn lemma_rising_slots_fit(slots: Seq<usize>, low: int, high: int, upto: int)
    requires
        0 <= upto <= slots.len(),
        forall|i: int| 0 <= i < slots.len() ==> low <= #[trigger] slots[i] < high,
        forall|i: int, j: int| 0 <= i < j < slots.len() ==> slots[i] < slots[j],
    ensures
        upto > 0 ==> slots[upto - 1] >= low + upto - 1,
        upto <= high - low || upto == 0,
    decreases upto,
{
    if upto > 0 {
        assert(low <= slots[upto - 1] < high);
    }
    if upto > 1 {
        lemma_rising_slots_fit(slots, low, high, upto - 1);
        assert(slots[upto - 2] < slots[upto - 1]);
    }
}

/// What the pump does with the requests: it moves the oldest of them, in
/// order, into slots of their own and announces each once. `slots` gives
/// the slots they went to. No request is invented, repeated or lost: what
/// is left of the queue is what was not moved; the proposals are what they
/// were and the moved requests; and what is sent, beyond `sent`, is one
/// proposal for each moved request. The slots rise, are new to the replica
/// and undecided, and are no more than a window's worth. The pump leaves
/// `slot_out` alone, never lowers `slot_in`, and stops only when the queue
/// is empty or the window is full.
pub proof fn lemma_pump_moves_requests<S: StateMachine>(
    r: ReplicaView<S>,
    sent: Seq<OutboundView>,
) -> (slots: Seq<usize>)
    requires
        replica_core(r),
    ensures
        ({
            let (after, out) = pump(r, sent);
            &&& slots.len() <= r.requests.len()
            &&& slots.len() <= WINDOW
            &&& after.requests == r.requests.skip(slots.len() as int)
            &&& after.requests.len() == 0 || after.slot_in == after.slot_out + WINDOW
            &&& after.slot_out == r.slot_out
            &&& after.slot_in >= r.slot_in
            &&& after.slot_in - after.slot_out <= WINDOW
            &&& out.len() == sent.len() + slots.len()
            &&& forall|i: int| 0 <= i < sent.len() ==> #[trigger] out[i] == sent[i]
            &&& forall|i: int|
                0 <= i < slots.len() ==> out[sent.len() + i] == (OutboundView {
                    to: Destination::Leaders,
                    message: MessageView::Propose(#[trigger] slots[i], r.requests[i]),
                })
            &&& forall|i: int|
                0 <= i < slots.len() ==> {
                    &&& r.slot_in <= #[trigger] slots[i] < after.slot_in
                    &&& r.slot_out <= slots[i]
                    &&& !r.proposals.contains_key(slots[i])
                    &&& !r.decisions.contains_key(slots[i])
                    &&& after.proposals.contains_key(slots[i])
                    &&& after.proposals[slots[i]] == r.requests[i]
                }
            &&& forall|i: int, j: int| 0 <= i < j < slots.len() ==> slots[i] < slots[j]
            &&& forall|k: usize|
                r.proposals.contains_key(k) ==> #[trigger] after.proposals.contains_key(k)
                    && after.proposals[k] == r.proposals[k]
            &&& forall|k: usize| #[trigger]
                after.proposals.contains_key(k) ==> r.proposals.contains_key(k) || slots.contains(
                    k,
                )
        }),
    decreases r.slot_out + WINDOW - r.slot_in,
{
    lemma_pump(r, sent);
    let (after, out) = pump(r, sent);
    if r.slot_in < r.slot_out + WINDOW && r.requests.len() > 0 {
        let slot = r.slot_in as usize;
        if r.decisions.contains_key(slot) {
            let next = ReplicaView { slot_in: r.slot_in + 1, ..r };
            let slots = lemma_pump_moves_requests(next, sent);
            slots
        } else {
            let command = r.requests[0];
            let next = ReplicaView {
                slot_in: r.slot_in + 1,
                requests: r.requests.drop_first(),
                proposals: r.proposals.insert(slot, command),
                ..r
            };
            let more = sent.push(
                OutboundView {
                    to: Destination::Leaders,
                    message: MessageView::Propose(slot, command),
                },
            );
            assert(r.slot_out <= r.slot_in);
            let rest = lemma_pump_moves_requests(next, more);
            let slots = seq![slot] + rest;
            assert(after.requests =~= r.requests.skip(slots.len() as int));
            assert forall|i: int| 0 <= i < sent.len() implies #[trigger] out[i] == sent[i] by {
                assert(out[i] == more[i]);
            }
            assert(out[sent.len() as int] == more[sent.len() as int]);
            assert forall|i: int| 0 <= i < slots.len() implies out[sent.len() + i]
                == (OutboundView {
                to: Destination::Leaders,
                message: MessageView::Propose(#[trigger] slots[i], r.requests[i]),
            }) by {
                if i > 0 {
                    assert(slots[i] == rest[i - 1]);
                    assert(next.requests[i - 1] == r.requests[i]);
                    assert(out[more.len() + (i - 1)] == (OutboundView {
                        to: Destination::Leaders,
                        message: MessageView::Propose(rest[i - 1], next.requests[i - 1]),
                    }));
                }
            }
            assert forall|i: int| 0 <= i < slots.len() implies {
                &&& r.slot_in <= #[trigger] slots[i] < after.slot_in
                &&& r.slot_out <= slots[i]
                &&& !r.proposals.contains_key(slots[i])
                &&& !r.decisions.contains_key(slots[i])
                &&& after.proposals.contains_key(slots[i])
                &&& after.proposals[slots[i]] == r.requests[i]
            } by {
                if i > 0 {
                    assert(slots[i] == rest[i - 1]);
                    assert(next.requests[i - 1] == r.requests[i]);
                    assert(next.slot_in <= rest[i - 1]);
                    assert(!next.proposals.contains_key(rest[i - 1]));
                    assert(after.proposals.contains_key(rest[i - 1]));
                    assert(after.proposals[rest[i - 1]] == next.requests[i - 1]);
                } else {
                    assert(slots[0] == slot);
                    assert(next.proposals.contains_key(slot));
                    assert(after.proposals.contains_key(slot));
                    assert(after.proposals[slot] == next.proposals[slot]);
                    if r.proposals.contains_key(slot) {
                        assert(slot < r.slot_in);
                    }
                }
            }
            assert forall|i: int, j: int| 0 <= i < j < slots.len() implies slots[i] < slots[j] by {
                assert(slots[j] == rest[j - 1]);
                assert(next.slot_in <= rest[j - 1]);
                if i > 0 {
                    assert(slots[i] == rest[i - 1]);
                }
            }
            assert forall|k: usize| #[trigger]
                after.proposals.contains_key(k) implies r.proposals.contains_key(k)
                || slots.contains(k) by {
                if !r.proposals.contains_key(k) {
                    if k == slot {
                        assert(slots[0] == k);
                    } else {
                        assert(!next.proposals.contains_key(k));
                        assert(rest.contains(k));
                        let i = choose|i: int| 0 <= i < rest.len() && rest[i] == k;
                        assert(slots[i + 1] == k);
                    }
                }
            }
            assert forall|k: usize| r.proposals.contains_key(k) implies #[trigger]
                after.proposals.contains_key(k) && after.proposals[k] == r.proposals[k] by {
                assert(k < r.slot_in);
                assert(k != slot);
                assert(next.proposals.contains_key(k));
                assert(next.proposals[k] == r.proposals[k]);
                assert(after.proposals.contains_key(k) && after.proposals[k]
                    == next.proposals[k]);
            }
            lemma_rising_slots_fit(
                slots,
                r.slot_out,
                r.slot_out + WINDOW,
                slots.len() as int,
            );
            slots
        }
    } else {
        assert(r.requests.skip(0) =~= r.requests);
        Seq::empty()
    }
}

/// Applying one decided command applies it once: the state is the state
/// machine's next state after the command, `slot_out` grows by one, and
/// nothing else of the replica changes. The client is answered once if
/// its endpoint is known, and not at all otherwise.
pub proof fn lemma_perform_applies_once<S: StateMachine>(
    r: ReplicaView<S>,
    command: Command,
    sent: Seq<OutboundView>,
)
    ensures
        perform(r, command, sent).0 == (ReplicaView {
            state: r.state.step(command).0,
            slot_out: r.slot_out + 1,
            ..r
        }),
        r.clients.contains_key(command.client_id) ==> perform(r, command, sent).1 == sent.push(
            OutboundView {
                to: Destination::Client(r.clients[command.client_id]),
                message: MessageView::Response(
                    command.op_id,
                    response_text(),
                    crate::paxos::reply_view(r.state.step(command).1),
                ),
            },
        ),
        !r.clients.contains_key(command.client_id) ==> perform(r, command, sent).1 == sent,
{
}

/// What a replica holds after decisions that all come from one log: it is
/// well formed, it started where it started, and it holds the decisions it
/// held and those delivered, each as the log has it.
proof fn lemma_deliver<S: StateMachine>(
    r: ReplicaView<S>,
    log: Map<usize, Command>,
    delivered: Seq<(usize, Command)>,
)
    requires
        replica_wf(r),
        forall|k: usize| #[trigger] log.contains_key(k) ==> valid_slot(k as int),
        forall|k: usize| #[trigger]
            r.decisions.contains_key(k) ==> log.contains_key(k) && r.decisions[k] == log[k],
        forall|i: int|
            0 <= i < delivered.len() ==> log.contains_key((#[trigger] delivered[i]).0)
                && delivered[i].1 == log[delivered[i].0],
    ensures
        replica_wf(deliver(r, delivered)),
        deliver(r, delivered).initial == r.initial,
        forall|k: usize| #[trigger]
            deliver(r, delivered).decisions.contains_key(k) ==> log.contains_key(k) && deliver(
                r,
                delivered,
            ).decisions[k] == log[k],
        forall|k: usize|
            r.decisions.contains_key(k) ==> #[trigger] deliver(r, delivered).decisions.contains_key(
                k,
            ),
        forall|i: int|
            0 <= i < delivered.len() ==> deliver(r, delivered).decisions.contains_key(
                (#[trigger] delivered[i]).0,
            ),
    decreases delivered.len(),
{
    if delivered.len() > 0 {
        let earlier = delivered.drop_last();
        let (slot, command) = delivered.last();
        assert forall|i: int| 0 <= i < earlier.len() implies log.contains_key(
            (#[trigger] earlier[i]).0,
        ) && earlier[i].1 == log[earlier[i].0] by {
            assert(earlier[i] == delivered[i]);
        }
        lemma_deliver(r, log, earlier);
        let before = deliver(r, earlier);
        let after = deliver(r, delivered);
        assert(delivered[delivered.len() - 1] == (slot, command));
        assert(log.contains_key(slot) && command == log[slot]);
        assert(decide(before, slot, command) is Ok);
        lemma_decide_keeps_wf(before, slot, command);
        lemma_replica_sends(before, Endpoint { token: 0 }, slot, command);
        assert forall|i: int| 0 <= i < delivered.len() implies after.decisions.contains_key(
            (#[trigger] delivered[i]).0,
        ) by {
            if i < earlier.len() {
                assert(earlier[i] == delivered[i]);
                assert(before.decisions.contains_key(earlier[i].0));
            }
        }
    }
}

/// Decisions may come in any order and any number of times. A well-formed
/// replica whose decisions are from the log of the slots 1 to `last`, and
/// that is then handed decisions from that log, among them every slot it
/// did not hold, ends up holding exactly the log, with `slot_out` after
/// `last` and the state that the log gives from the replica's initial
/// state. So two replicas that start alike and learn the same log are in
/// the same state, whatever reached them when.
pub proof fn lemma_decisions_in_any_order<S: StateMachine>(
    r: ReplicaView<S>,
    log: Map<usize, Command>,
    last: usize,
    delivered: Seq<(usize, Command)>,
)
    requires
        replica_wf(r),
        last <= MAX_SLOT,
        forall|k: usize| #[trigger] log.contains_key(k) <==> 1 <= k <= last,
        forall|k: usize| #[trigger]
            r.decisions.contains_key(k) ==> log.contains_key(k) && r.decisions[k] == log[k],
        forall|i: int|
            0 <= i < delivered.len() ==> log.contains_key((#[trigger] delivered[i]).0)
                && delivered[i].1 == log[delivered[i].0],
        forall|k: usize|
            1 <= k <= last ==> r.decisions.contains_key(k) || exists|i: int|
                0 <= i < delivered.len() && (#[trigger] delivered[i]).0 == k,
    ensures
        replica_wf(deliver(r, delivered)),
        deliver(r, delivered).decisions == log,
        deliver(r, delivered).slot_out == last + 1,
        deliver(r, delivered).initial == r.initial,
        deliver(r, delivered).state == run(r.initial, log, last + 1),
{
    lemma_deliver(r, log, delivered);
    let after = deliver(r, delivered);
    assert forall|k: usize| log.contains_key(k) implies after.decisions.contains_key(k) by {
        if !r.decisions.contains_key(k) {
            let i = choose|i: int| 0 <= i < delivered.len() && (#[trigger] delivered[i]).0 == k;
            assert(after.decisions.contains_key(delivered[i].0));
        }
    }
    assert(after.decisions =~= log);
    if after.slot_out <= last {
        assert(log.contains_key(after.slot_out as usize));
    }
    if after.slot_out > last + 1 {
        let beyond = (last + 1) as usize;
        assert(after.decisions.contains_key(beyond));
        assert(log.contains_key(beyond));
    }
}

/// Two logs that agree below a slot give the same state up to it.
proof fn lemma_run_agrees<S: StateMachine>(
    initial: S,
    d1: Map<usize, Command>,
    d2: Map<usize, Command>,
    upto: int,
)
    requires
        upto <= usize::MAX,
        forall|k: usize| 1 <= k < upto ==> #[trigger] d1[k] == d2[k],
    ensures
        run(initial, d1, upto) == run(initial, d2, upto),
    decreases upto,
{
    if upto > 1 {
        lemma_run_agrees(initial, d1, d2, upto - 1);
        let k = (upto - 1) as usize;
        assert(d1[k] == d2[k]);
    }
}

/// The answers for a range of slots are those for its lower part and then
/// those for its upper part.
proof fn lemma_answers_split<S: StateMachine>(
    initial: S,
    log: Map<usize, Command>,
    clients: Map<usize, Endpoint>,
    from: int,
    mid: int,
    upto: int,
)
    requires
        from <= mid <= upto,
    ensures
        answers(initial, log, clients, from, upto) == answers(initial, log, clients, from, mid)
            + answers(initial, log, clients, mid, upto),
    decreases upto - mid,
{
    if mid < upto {
        lemma_answers_split(initial, log, clients, from, mid, upto - 1);
        assert(answers(initial, log, clients, from, upto) =~= answers(
            initial,
            log,
            clients,
            from,
            mid,
        ) + answers(initial, log, clients, mid, upto));
    } else {
        assert(answers(initial, log, clients, from, upto) =~= answers(
            initial,
            log,
            clients,
            from,
            mid,
        ) + answers(initial, log, clients, mid, upto));
    }
}

/// A replica that awaits nothing but decisions from a log answers, while
/// it applies decided commands, for each slot it applies, in slot order,
/// and sends nothing else. It queues no request and proposes nothing.
proof fn lemma_advance_answers<S: StateMachine>(
    r: ReplicaView<S>,
    log: Map<usize, Command>,
    base: Seq<OutboundView>,
    start: int,
    sent: Seq<OutboundView>,
)
    requires
        replica_core(r),
        awaits(r, log),
        start <= r.slot_out,
        r.state == run(r.initial, log, r.slot_out),
        sent == base + answers(r.initial, log, r.clients, start, r.slot_out),
    ensures
        ({
            let (after, out) = advance(r, sent);
            &&& awaits(after, log)
            &&& out == base + answers(r.initial, log, r.clients, start, after.slot_out)
            &&& after.state == run(r.initial, log, after.slot_out)
            &&& after.clients == r.clients
            &&& forall|k: usize| #[trigger]
                after.proposals.contains_key(k) ==> r.proposals.contains_key(k)
        }),
    decreases MAX_SLOT + 1 - r.slot_out,
{
    lemma_advance(r, sent);
    let slot = r.slot_out as usize;
    if valid_slot(r.slot_out) && r.decisions.contains_key(slot) {
        let decision = r.decisions[slot];
        assert(decision == log[slot]);
        if r.proposals.contains_key(slot) {
            assert(r.proposals[slot]@ == log[slot]@);
        }
        let withdrawn = ReplicaView { proposals: r.proposals.remove(slot), ..r };
        let (performed, out) = perform(withdrawn, decision, sent);
        assert(replica_core(performed)) by {
            assert forall|k: usize| 1 <= k < performed.slot_out implies #[trigger]
                performed.decisions.contains_key(k) by {
                if k != slot {
                    assert(r.decisions.contains_key(k));
                }
            }
        }
        assert(out =~= base + answers(r.initial, log, r.clients, start, r.slot_out + 1));
        assert forall|k: usize| #[trigger] performed.proposals.contains_key(k) implies log.contains_key(
            k,
        ) && performed.proposals[k]@ == log[k]@ by {
            assert(r.proposals.contains_key(k));
        }
        lemma_advance_answers(performed, log, base, start, out);
        let (after, all) = advance(r, sent);
        assert forall|k: usize| #[trigger] after.proposals.contains_key(k) implies r.proposals.contains_key(
        k) by {
            assert(performed.proposals.contains_key(k));
        }
    }
}

/// What a replica that awaits nothing but decisions from a log holds and
/// has sent after some of them were delivered.
proof fn lemma_deliver_answers<S: StateMachine>(
    r: ReplicaView<S>,
    log: Map<usize, Command>,
    delivered: Seq<(usize, Command)>,
)
    requires
        replica_wf(r),
        awaits(r, log),
        forall|k: usize| #[trigger] log.contains_key(k) ==> valid_slot(k as int),
        forall|i: int|
            0 <= i < delivered.len() ==> log.contains_key((#[trigger] delivered[i]).0)
                && delivered[i].1 == log[delivered[i].0],
    ensures
        ({
            let after = deliver(r, delivered);
            &&& replica_wf(after)
            &&& awaits(after, log)
            &&& after.initial == r.initial
            &&& after.clients == r.clients
            &&& r.slot_out <= after.slot_out
            &&& forall|k: usize| #[trigger]
                after.proposals.contains_key(k) ==> r.proposals.contains_key(k)
            &&& deliver_sent(r, delivered) == answers(
                r.initial,
                log,
                r.clients,
                r.slot_out,
                after.slot_out,
            )
        }),
    decreases delivered.len(),
{
    if delivered.len() > 0 {
        let earlier = delivered.drop_last();
        let (slot, command) = delivered.last();
        assert forall|i: int| 0 <= i < earlier.len() implies log.contains_key(
            (#[trigger] earlier[i]).0,
        ) && earlier[i].1 == log[earlier[i].0] by {
            assert(earlier[i] == delivered[i]);
        }
        lemma_deliver_answers(r, log, earlier);
        let before = deliver(r, earlier);
        assert(delivered[delivered.len() - 1] == (slot, command));
        assert(log.contains_key(slot) && command == log[slot]);
        assert(decide(before, slot, command) is Ok);
        lemma_decide_keeps_wf(before, slot, command);
        let stored = if before.decisions.contains_key(slot) {
            before
        } else {
            ReplicaView { decisions: before.decisions.insert(slot, command), ..before }
        };
        if !before.decisions.contains_key(slot) {
            assert(slot >= before.slot_out) by {
                if slot < before.slot_out {
                    assert(before.decisions.contains_key(slot));
                }
            }
            lemma_run_ignores_later(
                before.initial,
                before.decisions,
                slot,
                command,
                before.slot_out,
            );
            assert forall|k: usize| 1 <= k < stored.slot_out implies #[trigger]
                stored.decisions.contains_key(k) by {
                assert(before.decisions.contains_key(k));
            }
        }
        assert(replica_core(stored));
        assert(awaits(stored, log)) by {
            assert forall|k: usize| #[trigger] stored.decisions.contains_key(k) implies log.contains_key(
            k) && stored.decisions[k] == log[k] by {
                if k != slot {
                    assert(before.decisions.contains_key(k));
                }
            }
        }
        assert(stored.state == run(stored.initial, log, stored.slot_out)) by {
            assert forall|k: usize| 1 <= k < stored.slot_out implies #[trigger]
                stored.decisions[k] == log[k] by {
                assert(stored.decisions.contains_key(k));
            }
            lemma_run_agrees(stored.initial, stored.decisions, log, stored.slot_out);
        }
        let none = Seq::<OutboundView>::empty();
        assert(none =~= none + answers(
            stored.initial,
            log,
            stored.clients,
            stored.slot_out,
            stored.slot_out,
        ));
        lemma_advance_answers(stored, log, none, stored.slot_out, none);
        lemma_advance(stored, none);
        let (advanced, out) = advance(stored, none);
        assert(pump(advanced, out) == (advanced, out));
        assert(out =~= answers(r.initial, log, r.clients, before.slot_out, advanced.slot_out));
        lemma_answers_split(
            r.initial,
            log,
            r.clients,
            r.slot_out,
            before.slot_out,
            advanced.slot_out,
        );
        let after = deliver(r, delivered);
        assert(after == advanced);
        assert forall|k: usize| #[trigger] after.proposals.contains_key(k) implies r.proposals.contains_key(
        k) by {
            assert(stored.proposals.contains_key(k));
            assert(before.proposals.contains_key(k));
        }
    } else {
        assert(r.state == run(r.initial, log, r.slot_out)) by {
            assert forall|k: usize| 1 <= k < r.slot_out implies #[trigger] r.decisions[k]
                == log[k] by {
                assert(r.decisions.contains_key(k));
            }
            lemma_run_agrees(r.initial, r.decisions, log, r.slot_out);
        }
    }
}

/// A replica that has proposed the commands of a log into their slots,
/// waits for nothing else, and is then handed the decisions of the log,
/// in any order and any number of times but every slot at least once,
/// applies the log in slot order. It answers each client once per slot,
/// in slot order, and sends nothing else. In the end it holds exactly the
/// log as decided, nothing as requested or proposed, `slot_out` after the
/// last slot, and the state that the log gives.
pub proof fn lemma_decisions_are_answered_in_slot_order<S: StateMachine>(
    r: ReplicaView<S>,
    log: Map<usize, Command>,
    last: usize,
    delivered: Seq<(usize, Command)>,
)
    requires
        replica_wf(r),
        awaits(r, log),
        last <= MAX_SLOT,
        forall|k: usize| #[trigger] log.contains_key(k) <==> 1 <= k <= last,
        forall|i: int|
            0 <= i < delivered.len() ==> log.contains_key((#[trigger] delivered[i]).0)
                && delivered[i].1 == log[delivered[i].0],
        forall|k: usize|
            1 <= k <= last ==> r.decisions.contains_key(k) || exists|i: int|
                0 <= i < delivered.len() && (#[trigger] delivered[i]).0 == k,
    ensures
        deliver(r, delivered).decisions == log,
        deliver(r, delivered).slot_out == last + 1,
        deliver(r, delivered).state == run(r.initial, log, last + 1),
        deliver(r, delivered).requests.len() == 0,
        deliver(r, delivered).proposals == Map::<usize, Command>::empty(),
        deliver_sent(r, delivered) == answers(r.initial, log, r.clients, r.slot_out, last + 1),
{
    lemma_decisions_in_any_order(r, log, last, delivered);
    lemma_deliver_answers(r, log, delivered);
    let after = deliver(r, delivered);
    assert forall|k: usize| !after.proposals.contains_key(k) by {
        if after.proposals.contains_key(k) {
            assert(r.proposals.contains_key(k));
            assert(log.contains_key(k));
        }
    }
    assert(after.proposals =~= Map::<usize, Command>::empty());
}

/// Appending a message to a list appends its view to the list's views.
proof fn lemma_views_push(out: Seq<Outbound>, o: Outbound)
    ensures
        crate::paxos::outbound_views(out.push(o)) == crate::paxos::outbound_views(out).push(o@),
{
    assert(crate::paxos::outbound_views(out.push(o)) =~= crate::paxos::outbound_views(out).push(
        o@,
    ));
}

} // verus!
