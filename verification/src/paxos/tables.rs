//! The two hash tables a replica keeps: what has been decided for each
//! slot, and where each client can be reached.

use vstd::prelude::*;
use crate::paxos::Command;
use crate::paxos::Endpoint;

verus! {

/// The decided commands by slot, held in a `hashbrown::HashMap`.
#[verifier::external_body]
#[derive(Debug)]
pub struct Decisions {
    map: hashbrown::HashMap<usize, Command>,
}

/// The slots that `d` holds and the command decided for each.
pub uninterp spec fn decided(d: Decisions) -> Map<usize, Command>;

/// The reply endpoints by client, held in a `hashbrown::HashMap`.
#[verifier::external_body]
#[derive(Debug)]
pub struct Clients {
    map: hashbrown::HashMap<usize, Endpoint>,
}

/// The clients that `c` knows and the endpoint of each.
pub uninterp spec fn known_clients(c: Clients) -> Map<usize, Endpoint>;

impl Decisions {
    /// `HashMap::new`: a table that holds nothing.
    #[verifier::external_body]
    pub(crate) fn new() -> (d: Decisions)
        ensures
            decided(d) == (Map::<usize, Command>::empty()),
    {
        Decisions { map: hashbrown::HashMap::new() }
    }

    /// `HashMap::insert`: afterwards `slot` holds `command`, whatever it
    /// held before, and every other slot holds what it held.
    #[verifier::external_body]
    pub(crate) fn insert(&mut self, slot: usize, command: Command)
        ensures
            decided(*final(self)) == decided(*old(self)).insert(slot, command),
    {
        self.map.insert(slot, command);
    }

    /// `HashMap::get`: the command that `slot` holds, if it holds one.
    #[verifier::external_body]
    pub(crate) fn get(&self, slot: usize) -> (r: Option<&Command>)
        ensures
            r is Some <==> decided(*self).contains_key(slot),
            r matches Some(c) ==> *c == decided(*self)[slot],
    {
        self.map.get(&slot)
    }
}

impl Clients {
    /// `HashMap::new`: a table that holds nothing.
    #[verifier::external_body]
    pub(crate) fn new() -> (c: Clients)
        ensures
            known_clients(c) == (Map::<usize, Endpoint>::empty()),
    {
        Clients { map: hashbrown::HashMap::new() }
    }

    /// `HashMap::try_insert`: a client that the table does not know yet is
    /// recorded with `endpoint`; for a known client nothing changes.
    #[verifier::external_body]
    pub(crate) fn try_insert(&mut self, client: usize, endpoint: Endpoint)
        ensures
            known_clients(*final(self)) == if known_clients(*old(self)).contains_key(client) {
                known_clients(*old(self))
            } else {
                known_clients(*old(self)).insert(client, endpoint)
            },
    {
        let _ = self.map.try_insert(client, endpoint);
    }

    /// `HashMap::get`: the endpoint recorded for `client`, if there is one.
    #[verifier::external_body]
    pub(crate) fn get(&self, client: usize) -> (r: Option<Endpoint>)
        ensures
            r is Some <==> known_clients(*self).contains_key(client),
            r matches Some(e) ==> e == known_clients(*self)[client],
    {
        self.map.get(&client).copied()
    }
}

} // verus!
