use vstd::prelude::*;
use vstd::std_specs::cmp::PartialEqSpecImpl;

verus! {

/// Identifier of a peer taking part in a session.
///
/// The zero peer is the local client itself.
#[derive(Debug, Clone, Copy, Default)]
pub struct PeerId(pub u32);

impl PartialEq for PeerId {
    fn eq(&self, other: &Self) -> (r: bool) {
        self.0 == other.0
    }
}

impl Eq for PeerId {}

impl PartialEqSpecImpl for PeerId {
    open spec fn obeys_eq_spec() -> bool {
        true
    }

    open spec fn eq_spec(&self, other: &PeerId) -> bool {
        self.0 == other.0
    }
}

impl PeerId {
    pub fn zero() -> (r: PeerId)
        ensures
            r.0 == 0,
    {
        PeerId(0)
    }

    pub fn is_zero(&self) -> (r: bool)
        ensures
            r == (self.0 == 0),
    {
        self.0 == 0
    }
}

/// Identifier of an object, unique among the objects of one peer.
#[derive(Debug, Clone, Copy, Default)]
pub struct Id(pub u32);

impl PartialEq for Id {
    fn eq(&self, other: &Self) -> (r: bool) {
        self.0 == other.0
    }
}

impl Eq for Id {}

impl PartialEqSpecImpl for Id {
    open spec fn obeys_eq_spec() -> bool {
        true
    }

    open spec fn eq_spec(&self, other: &Id) -> bool {
        self.0 == other.0
    }
}

impl Id {
    pub fn zero() -> (r: Id)
        ensures
            r.0 == 0,
    {
        Id(0)
    }

    pub fn is_zero(&self) -> (r: bool)
        ensures
            r == (self.0 == 0),
    {
        self.0 == 0
    }
}

/// An object identifier qualified by the peer that owns the object.
#[derive(Debug, Clone, Copy, Default)]
pub struct RemoteId {
    pub peer_id: PeerId,
    pub id: Id,
}

impl PartialEq for RemoteId {
    fn eq(&self, other: &Self) -> (r: bool) {
        self.peer_id.0 == other.peer_id.0 && self.id.0 == other.id.0
    }
}

impl Eq for RemoteId {}

impl PartialEqSpecImpl for RemoteId {
    open spec fn obeys_eq_spec() -> bool {
        true
    }

    open spec fn eq_spec(&self, other: &RemoteId) -> bool {
        self.peer_id.0 == other.peer_id.0 && self.id.0 == other.id.0
    }
}

/// The identifier that stands for "no object": the root group.
pub open spec fn zero_id() -> RemoteId {
    RemoteId { peer_id: PeerId(0), id: Id(0) }
}

/// The strict order on identifiers: first by peer, then by object id.
pub open spec fn rid_lt(a: RemoteId, b: RemoteId) -> bool {
    a.peer_id.0 < b.peer_id.0 || (a.peer_id.0 == b.peer_id.0 && a.id.0 < b.id.0)
}

/// Collapses every identifier with a zero object id into the root group.
pub open spec fn spec_as_group(id: RemoteId) -> RemoteId {
    if id.id.0 == 0 {
        zero_id()
    } else {
        id
    }
}

impl RemoteId {
    pub fn new(peer_id: PeerId, id: Id) -> (r: RemoteId)
        ensures
            r == (RemoteId { peer_id, id }),
    {
        RemoteId { peer_id, id }
    }

    pub fn zero() -> (r: RemoteId)
        ensures
            r == zero_id(),
    {
        RemoteId { peer_id: PeerId(0), id: Id(0) }
    }

    /// An identifier of an object owned by the local client.
    pub fn local(id: Id) -> (r: RemoteId)
        ensures
            r == (RemoteId { peer_id: PeerId(0), id }),
    {
        RemoteId { peer_id: PeerId(0), id }
    }

    /// Whether the object is owned by the local client.
    pub fn is_local(&self) -> (r: bool)
        ensures
            r == (self.peer_id.0 == 0),
    {
        self.peer_id.0 == 0
    }

    /// Whether this is the root group.
    pub fn is_root(&self) -> (r: bool)
        ensures
            r == (*self == zero_id()),
    {
        self.peer_id.0 == 0 && self.id.0 == 0
    }

    pub fn same(&self, other: &RemoteId) -> (r: bool)
        ensures
            r == (*self == *other),
    {
        self.peer_id.0 == other.peer_id.0 && self.id.0 == other.id.0
    }

    pub fn less(&self, other: &RemoteId) -> (r: bool)
        ensures
            r == rid_lt(*self, *other),
    {
        self.peer_id.0 < other.peer_id.0 || (self.peer_id.0 == other.peer_id.0 && self.id.0
            < other.id.0)
    }
}

/// Maps every identifier whose object id is zero to the root group.
pub fn as_group(id: RemoteId) -> (r: RemoteId)
    ensures
        r == spec_as_group(id),
{
    if id.id.is_zero() {
        return RemoteId::zero();
    }
    id
}

/// The public key identifying a peer across sessions.
#[derive(Debug, Clone, Copy)]
pub struct PublicKey(pub [u8; 32]);

/// The all-zero key bytes.
pub open spec fn spec_zero_key() -> [u8; 32] {
    choose|k: [u8; 32]| k@ == Seq::new(32, |i: int| 0u8)
}

/// The stable identifier made of the all-zero key and a zero id.
pub open spec fn zero_stable_id() -> StableId {
    StableId { public_key: PublicKey(spec_zero_key()), id: Id(0) }
}

impl PublicKey {
    pub fn zero() -> (r: PublicKey)
        ensures
            r.0 == spec_zero_key(),
            r.0@ == Seq::new(32, |i: int| 0u8),
    {
        let r = PublicKey([0u8; 32]);
        proof {
            broadcast use vstd::array::group_array_axioms;
            assert(r.0@ =~= Seq::new(32, |i: int| 0u8));
            let k = spec_zero_key();
            assert(k@ == Seq::new(32, |i: int| 0u8));
            assert(forall|i: int| 0 <= i < 32 ==> k@[i] == r.0@[i]);
            assert(k =~= r.0);
        }
        r
    }

    /// Compares two keys byte by byte.
    pub fn same(&self, other: &PublicKey) -> (r: bool)
        ensures
            r == (*self == *other),
    {
        let mut i: usize = 0;
        while i < 32
            invariant
                0 <= i <= 32,
                forall|j: int| 0 <= j < i ==> self.0[j] == other.0[j],
            decreases 32 - i,
        {
            if self.0[i] != other.0[i] {
                return false;
            }
            i = i + 1;
        }
        proof {
            broadcast use vstd::array::group_array_axioms;
            assert(self.0 == other.0);
        }
        true
    }
}

/// An object identifier that is stable across sessions: the owner's public
/// key and the object id.
#[derive(Debug, Clone, Copy)]
pub struct StableId {
    pub public_key: PublicKey,
    pub id: Id,
}

impl StableId {
    pub fn new(public_key: PublicKey, id: Id) -> (r: StableId)
        ensures
            r == (StableId { public_key, id }),
    {
        StableId { public_key, id }
    }

    pub fn zero() -> (r: StableId)
        ensures
            r == zero_stable_id(),
    {
        StableId { public_key: PublicKey::zero(), id: Id(0) }
    }

    pub fn same(&self, other: &StableId) -> (r: bool)
        ensures
            r == (*self == *other),
    {
        self.public_key.same(&other.public_key) && self.id.0 == other.id.0
    }
}

} // verus!

verus! {

/// The character of a decimal digit.
pub open spec fn digit_char(d: nat) -> char {
    (48 + d) as char
}

/// The decimal digits of `n`, most significant first, without leading
/// zeros.
pub open spec fn decimal(n: nat) -> Seq<char>
    decreases n,
{
    if n < 10 {
        seq![digit_char(n)]
    } else {
        decimal(n / 10).push(digit_char(n % 10))
    }
}

/// Formats `n` in decimal with `u32`'s `Display` (through `to_string`),
/// which std documents as the decimal digits without leading zeros.
#[verifier::external_body]
pub(crate) fn u32_text(n: u32) -> (r: String)
    ensures
        r@ == decimal(n as nat),
{
    n.to_string()
}

impl PeerId {
    /// The peer's number in decimal.
    pub fn to_text(&self) -> (r: String)
        ensures
            r@ == decimal(self.0 as nat),
    {
        u32_text(self.0)
    }
}

} // verus!
