//! Node identities and the lexicographic order on them.

use vstd::prelude::*;
use std::cmp::Ordering;

verus! {

/// The loopback address.
pub const LOOPBACK: [u8; 4] = [127, 0, 0, 1];

/// The role a node plays in the ensemble.
#[derive(Debug, Clone, Copy, PartialEq, Eq, Structural)]
pub enum Identity {
    /// Stores promises and accepted proposals.
    Acceptor,
    /// Drives ballots through the acceptors.
    Leader,
    /// Applies decided commands to the state machine.
    Replica,
    /// A node of a single-role deployment.
    Server,
}

/// A 128-bit node identifier. Identifiers are ordered lexicographically by
/// their bytes.
#[derive(Debug, Clone, Copy, Hash, Eq, Ord)]
pub struct NodeId {
    pub id: [u8; 16],
}

impl PartialEq for NodeId {
    fn eq(&self, other: &NodeId) -> (r: bool) {
        matches!(self.compare(other), Ordering::Equal)
    }
}

impl vstd::std_specs::cmp::PartialEqSpecImpl for NodeId {
    open spec fn obeys_eq_spec() -> bool {
        true
    }

    open spec fn eq_spec(&self, other: &NodeId) -> bool {
        *self == *other
    }
}

impl PartialOrd for NodeId {
    fn partial_cmp(&self, other: &NodeId) -> (r: Option<Ordering>) {
        Some(self.compare(other))
    }
}

impl vstd::std_specs::cmp::PartialOrdSpecImpl for NodeId {
    open spec fn obeys_partial_cmp_spec() -> bool {
        true
    }

    open spec fn partial_cmp_spec(&self, other: &NodeId) -> Option<Ordering> {
        if self.precedes(*other) {
            Some(Ordering::Less)
        } else if *self == *other {
            Some(Ordering::Equal)
        } else {
            Some(Ordering::Greater)
        }
    }
}

/// An internet address as plain bytes.
#[derive(Debug, Clone, Copy, PartialEq, Eq)]
pub enum IpAddress {
    V4([u8; 4]),
    V6([u8; 16]),
}

/// Where a node listens: address and port.
#[derive(Debug, Clone, Copy, PartialEq, Eq)]
pub struct Address {
    pub ip: IpAddress,
    pub port: u16,
}

/// One line of the membership registry: a node, its role and where it
/// listens.
#[derive(Debug, Clone, Copy, PartialEq, Eq)]
pub struct Entry {
    pub id: NodeId,
    pub kind: Identity,
    pub addr: Address,
}

/// `a` comes before `b` in lexicographic byte order: they agree on a prefix
/// and `a` holds the smaller byte right after it.
pub open spec fn lex_lt(a: Seq<u8>, b: Seq<u8>) -> bool {
    exists|k: int|
        0 <= k < a.len() && k < b.len() && #[trigger] a[k] < b[k] && forall|j: int|
            0 <= j < k ==> a[j] == b[j]
}

/// `uuid::Uuid::new_v4` and `as_bytes`: sixteen random bytes, of which the
/// high half of byte 6 is the version, 4, and the two high bits of byte 8
/// are the variant, 1 and 0. The call fails only where the operating
/// system hands out no random bytes.
#[verifier::external_body]
fn random_uuid() -> (r: [u8; 16])
    ensures
        r@[6] / 16 == 4,
        128 <= r@[8] < 192,
{
    *uuid::Uuid::new_v4().as_bytes()
}

impl Identity {
    /// The name under which the kind is written, as in the membership
    /// registry.
    pub open spec fn name_of(self) -> Seq<char> {
        match self {
            Identity::Acceptor => "Acceptor"@,
            Identity::Leader => "Leader"@,
            Identity::Replica => "Replica"@,
            Identity::Server => "Server"@,
        }
    }

    /// The name under which the kind is written.
    pub fn name(&self) -> (r: String)
        ensures
            r@ == self.name_of(),
            *self == Identity::Acceptor ==> r@ == "Acceptor"@,
            *self == Identity::Leader ==> r@ == "Leader"@,
            *self == Identity::Replica ==> r@ == "Replica"@,
            *self == Identity::Server ==> r@ == "Server"@,
    {
        match self {
            Identity::Acceptor => "Acceptor".to_string(),
            Identity::Leader => "Leader".to_string(),
            Identity::Replica => "Replica".to_string(),
            Identity::Server => "Server".to_string(),
        }
    }
}

impl NodeId {
    /// A fresh random identifier, in the shape of a version 4 UUID.
    pub fn new() -> (r: NodeId)
        ensures
            r.bytes()[6] / 16 == 4,
            128 <= r.bytes()[8] < 192,
    {
        NodeId { id: random_uuid() }
    }

    /// The sixteen bytes of the identifier.
    pub open spec fn bytes(self) -> Seq<u8> {
        self.id@
    }

    /// Strict order on identifiers.
    pub open spec fn precedes(self, other: NodeId) -> bool {
        lex_lt(self.bytes(), other.bytes())
    }

    /// Three-way comparison in lexicographic byte order.
    pub fn compare(&self, other: &NodeId) -> (r: Ordering)
        ensures
            r == Ordering::Less <==> self.precedes(*other),
            r == Ordering::Equal <==> *self == *other,
            r == Ordering::Greater <==> other.precedes(*self),
    {
        let mut i: usize = 0;
        while i < 16
            invariant
                0 <= i <= 16,
                forall|j: int| 0 <= j < i ==> self.id@[j] == other.id@[j],
            decreases 16 - i,
        {
            if self.id[i] < other.id[i] {
                return Ordering::Less;
            }
            if self.id[i] > other.id[i] {
                return Ordering::Greater;
            }
            i += 1;
        }
        assert(self.id =~= other.id);
        Ordering::Equal
    }
}

impl Entry {
    /// The entry for the node `id` of kind `kind` that listens at `addr`.
    pub fn new(id: NodeId, kind: Identity, addr: Address) -> (e: Entry)
        ensures
            e == (Entry { id, kind, addr }),
    {
        Entry { id, kind, addr }
    }
}

/// Two identifiers are either equal or ordered one way, never both.
pub proof fn lemma_order_is_strict(a: NodeId, b: NodeId)
    ensures
        a == b || a.precedes(b) || b.precedes(a),
        !(a.precedes(b) && b.precedes(a)),
        a.precedes(b) ==> a != b,
{
    lemma_first_difference(a, b, 0);
    if a.precedes(b) && b.precedes(a) {
        let k1 = choose|k: int|
            0 <= k < 16 && #[trigger] a.bytes()[k] < b.bytes()[k] && forall|j: int|
                0 <= j < k ==> a.bytes()[j] == b.bytes()[j];
        let k2 = choose|k: int|
            0 <= k < 16 && #[trigger] b.bytes()[k] < a.bytes()[k] && forall|j: int|
                0 <= j < k ==> b.bytes()[j] == a.bytes()[j];
        assert(false);
    }
}

/// Identifiers that agree on their first `i` bytes are equal, or differ
/// first at some later byte.
proof fn lemma_first_difference(a: NodeId, b: NodeId, i: int)
    requires
        0 <= i <= 16,
        forall|j: int| 0 <= j < i ==> a.bytes()[j] == b.bytes()[j],
    ensures
        a == b || a.precedes(b) || b.precedes(a),
    decreases 16 - i,
{
    if i == 16 {
        assert(a.bytes() =~= b.bytes());
        assert(a.id =~= b.id);
    } else if a.bytes()[i] < b.bytes()[i] {
    } else if b.bytes()[i] < a.bytes()[i] {
    } else {
        lemma_first_difference(a, b, i + 1);
    }
}

/// The order on identifiers is transitive.
pub proof fn lemma_order_is_transitive(a: NodeId, b: NodeId, c: NodeId)
    requires
        a.precedes(b),
        b.precedes(c),
    ensures
        a.precedes(c),
{
    let k1 = choose|k: int|
        0 <= k < 16 && #[trigger] a.bytes()[k] < b.bytes()[k] && forall|j: int|
            0 <= j < k ==> a.bytes()[j] == b.bytes()[j];
    let k2 = choose|k: int|
        0 <= k < 16 && #[trigger] b.bytes()[k] < c.bytes()[k] && forall|j: int|
            0 <= j < k ==> b.bytes()[j] == c.bytes()[j];
    let k = if k1 <= k2 {
        k1
    } else {
        k2
    };
    assert(a.bytes()[k] < c.bytes()[k]);
}

} // verus!
