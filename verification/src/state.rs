//! The replicated state machine: what a replica applies decided commands to.

use vstd::prelude::*;
use crate::paxos::Command;

verus! {

/// What a state machine answers to a command.
pub type Reply = Result<String, String>;

/// A deterministic state machine. Applying a command gives the next state
/// and a reply, and both depend on the state and the command alone.
pub trait StateMachine: Sized {
    /// The state and the reply that follow from `command` in state `self`.
    spec fn step(self, command: Command) -> (Self, Reply);

    /// Applies `command` in place and hands back the reply.
    fn apply(&mut self, command: &Command) -> (reply: Reply)
        ensures
            (*final(self), reply) == old(self).step(*command),
    ;
}

/// The state that replicas keep by default: a counter that no command
/// changes.
#[derive(Debug, Clone, Copy, PartialEq, Eq, Structural, Hash)]
pub struct ReplicaState {
    n: usize,
}

impl ReplicaState {
    /// The counter the state holds.
    pub closed spec fn count(self) -> usize {
        self.n
    }

    /// The operation that leaves the state as it is and answers `Ok(s)`.
    pub fn triv(s: String) -> (f: impl Fn(&ReplicaState) -> (ReplicaState, Reply))
        ensures
            forall|q: &ReplicaState| call_requires(f, (q,)),
            forall|q: &ReplicaState, out: (ReplicaState, Reply)|
                call_ensures(f, (q,), out) ==> out == (*q, Ok::<String, String>(s)),
    {
        move |q: &ReplicaState| -> (out: (ReplicaState, Reply))
            ensures
                out == (*q, Ok::<String, String>(s)),
            { (*q, Ok(s.clone())) }
    }
}

impl Default for ReplicaState {
    fn default() -> (r: ReplicaState)
        ensures
            r.count() == 0,
    {
        ReplicaState { n: 0 }
    }
}

impl StateMachine for ReplicaState {
    open spec fn step(self, command: Command) -> (ReplicaState, Reply) {
        (self, Ok(command.op))
    }

    fn apply(&mut self, command: &Command) -> (reply: Reply) {
        let f = ReplicaState::triv(command.op.clone());
        let (state, reply) = f(&*self);
        *self = state;
        reply
    }
}

} // verus!
