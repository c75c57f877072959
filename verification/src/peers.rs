use vstd::prelude::*;

use crate::id_map::KeyMap;
use crate::ids::{decimal, zero_stable_id, PeerId, PublicKey, RemoteId, StableId};
use crate::values::{prop, Key, Properties, RemotePeer, Value, ValueView};

verus! {

/// What the client knows about a peer.
pub struct PeerView {
    pub id: PeerId,
    pub props: Map<Key, ValueView>,
    pub public_key: PublicKey,
    pub in_room: bool,
}

/// State associated with a peer.
#[derive(Debug)]
pub struct Peer {
    pub id: PeerId,
    pub props: Properties,
    pub public_key: PublicKey,
    pub in_room: bool,
}

impl View for Peer {
    type V = PeerView;

    open spec fn view(&self) -> PeerView {
        PeerView { id: self.id, props: self.props@, public_key: self.public_key, in_room: self.in_room }
    }
}

/// The name under which a peer is shown: its name property, or its number
/// where the name is empty.
pub open spec fn spec_display(p: PeerView) -> Seq<char> {
    let name = prop(p.props, Key::PeerName).as_str();
    if name.len() == 0 {
        decimal(p.id.0 as nat)
    } else {
        name
    }
}

impl Peer {
    /// Sets a property of the peer; setting its room also tells whether it
    /// is in room `room`.
    pub fn update(&mut self, key: Key, value: Value, room: &StableId)
        requires
            old(self).props.wf(),
        ensures
            final(self).props.wf(),
            final(self)@ == (PeerView {
                props: old(self)@.props.insert(key, value@),
                in_room: if key == Key::Room {
                    value@.as_stable_id() == *room
                } else {
                    old(self)@.in_room
                },
                ..old(self)@
            }),
    {
        if key == Key::Room {
            self.in_room = value.as_stable_id().same(room);
        }
        self.props.insert(key, value);
    }

    /// Recomputes whether the peer is in room `room`.
    pub fn update_config(&mut self, room: &StableId)
        requires
            old(self).props.wf(),
        ensures
            final(self)@ == (PeerView {
                in_room: prop(old(self)@.props, Key::Room).as_stable_id() == *room,
                ..old(self)@
            }),
            final(self).props.wf(),
    {
        self.in_room = self.props.get_stable_id(Key::Room).same(room);
    }

    /// The name of the peer.
    pub fn display(&self) -> (r: String)
        requires
            self.props.wf(),
        ensures
            r@ == spec_display(self@),
    {
        let name = self.props.get_str(Key::PeerName);
        if name.is_empty() {
            return self.id.to_text();
        }
        name.to_owned()
    }
}

/// The two maps mirror each other: each peer's key leads back to it, and
/// each key leads to a peer with that key.
pub open spec fn maps_consistent(peers: Map<PeerId, PeerView>, keys: Map<PublicKey, PeerId>) -> bool {
    &&& forall|id: PeerId| #[trigger]
        peers.contains_key(id) ==> keys.contains_key(peers[id].public_key) && keys[peers[id].public_key]
            == id
    &&& forall|k: PublicKey| #[trigger]
        keys.contains_key(k) ==> peers.contains_key(keys[k]) && peers[keys[k]].public_key == k
}

/// The maps after peer `pv` is added: the peer that held its key leaves,
/// then `pv` takes its id, and the key of the peer it replaces leaves.
pub open spec fn insert_maps(
    peers: Map<PeerId, PeerView>,
    keys: Map<PublicKey, PeerId>,
    pv: PeerView,
) -> (Map<PeerId, PeerView>, Map<PublicKey, PeerId>) {
    let keys1 = keys.insert(pv.public_key, pv.id);
    let peers1 = if keys.contains_key(pv.public_key) {
        peers.remove(keys[pv.public_key])
    } else {
        peers
    };
    let keys2 = if peers1.contains_key(pv.id) {
        keys1.remove(peers1[pv.id].public_key)
    } else {
        keys1
    };
    (peers1.insert(pv.id, pv), keys2)
}

/// The maps after peer `id` is forgotten.
pub open spec fn remove_maps(
    peers: Map<PeerId, PeerView>,
    keys: Map<PublicKey, PeerId>,
    id: PeerId,
) -> (Map<PeerId, PeerView>, Map<PublicKey, PeerId>) {
    (
        peers.remove(id),
        if peers.contains_key(id) {
            keys.remove(peers[id].public_key)
        } else {
            keys
        },
    )
}

/// The session identifier of the object with stable id `s`.
pub open spec fn spec_to_remote(own: PublicKey, keys: Map<PublicKey, PeerId>, s: StableId) -> RemoteId {
    if s.public_key == own {
        RemoteId { peer_id: PeerId(0), id: s.id }
    } else if keys.contains_key(s.public_key) {
        RemoteId { peer_id: keys[s.public_key], id: s.id }
    } else {
        crate::ids::zero_id()
    }
}

/// The stable identifier of the object with session identifier `r`.
pub open spec fn spec_to_stable(own: PublicKey, peers: Map<PeerId, PeerView>, r: RemoteId) -> StableId {
    if r.peer_id.0 == 0 {
        StableId { public_key: own, id: r.id }
    } else if peers.contains_key(r.peer_id) {
        StableId { public_key: peers[r.peer_id].public_key, id: r.id }
    } else {
        zero_stable_id()
    }
}

/// The peers of a session, by id and by public key.
pub struct Peers {
    peers: KeyMap<PeerId, Peer>,
    public_keys: KeyMap<PublicKey, PeerId>,
    public_key: PublicKey,
}

impl Peers {
    /// The public key of this client.
    pub closed spec fn own_key(&self) -> PublicKey {
        self.public_key
    }

    pub fn public_key(&self) -> (r: PublicKey)
        ensures
            r == self.own_key(),
    {
        self.public_key
    }

    /// Sets the public key of this client.
    pub fn set_public_key(&mut self, key: PublicKey)
        ensures
            final(self).own_key() == key,
            final(self).peers_view() == old(self).peers_view(),
            final(self).keys_view() == old(self).keys_view(),
            old(self).wf() ==> final(self).wf(),
    {
        self.public_key = key;
    }

    /// The peers by id.
    pub closed spec fn peers_view(&self) -> Map<PeerId, PeerView> {
        self.peers@.map_values(|p: Peer| p@)
    }

    /// The peer ids by public key.
    pub closed spec fn keys_view(&self) -> Map<PublicKey, PeerId> {
        self.public_keys@
    }

    /// Every peer is stored under its own id, with well-formed properties.
    pub closed spec fn wf(&self) -> bool {
        &&& self.peers.wf()
        &&& self.public_keys.wf()
        &&& forall|id: PeerId| #[trigger]
            self.peers@.contains_key(id) ==> self.peers@[id].id == id
                && self.peers@[id].props.wf()
    }

    /// The two maps mirror each other: each peer's key leads back to it,
    /// and each key leads to a peer with that key.
    pub open spec fn consistent(&self) -> bool {
        maps_consistent(self.peers_view(), self.keys_view())
    }

    pub proof fn lemma_ids(&self)
        requires
            self.wf(),
        ensures
            forall|id: PeerId| #[trigger]
                self.peers_view().contains_key(id) ==> self.peers_view()[id].id == id,
    {
    }

    pub fn new() -> (r: Peers)
        ensures
            r.wf(),
            r.consistent(),
            r.peers_view() == Map::<PeerId, PeerView>::empty(),
            r.keys_view() == Map::<PublicKey, PeerId>::empty(),
            r.own_key() == PublicKey(crate::ids::spec_zero_key()),
    {
        let r = Peers { peers: KeyMap::new(), public_keys: KeyMap::new(), public_key: PublicKey::zero() };
        assert(r.peers_view() =~= Map::<PeerId, PeerView>::empty());
        r
    }

    /// The ids of all peers, each once.
    pub fn ids(&self) -> (r: Vec<PeerId>)
        requires
            self.wf(),
        ensures
            forall|i: int, j: int| 0 <= i < j < r@.len() ==> r@[i] != r@[j],
            forall|k: PeerId| #[trigger] r@.contains(k) <==> self.peers_view().contains_key(k),
    {
        self.peers.keys()
    }

    /// Forgets all remote peers.
    pub fn clear(&mut self)
        ensures
            final(self).wf(),
            final(self).consistent(),
            final(self).peers_view() == Map::<PeerId, PeerView>::empty(),
            final(self).keys_view() == Map::<PublicKey, PeerId>::empty(),
            final(self).own_key() == old(self).own_key(),
    {
        self.peers = KeyMap::new();
        self.public_keys = KeyMap::new();
        assert(self.peers_view() =~= Map::<PeerId, PeerView>::empty());
    }

    pub fn get(&self, id: PeerId) -> (r: Option<&Peer>)
        requires
            self.wf(),
        ensures
            match r {
                Some(p) => self.peers_view().contains_key(id) && p@ == self.peers_view()[id]
                    && p.props.wf(),
                None => !self.peers_view().contains_key(id),
            },
    {
        self.peers.get(&id)
    }

    /// The peer with public key `key`.
    pub fn by_public_key(&self, key: &PublicKey) -> (r: Option<&Peer>)
        requires
            self.wf(),
        ensures
            match r {
                Some(p) => self.keys_view().contains_key(*key) && self.peers_view().contains_key(
                    self.keys_view()[*key],
                ) && p@ == self.peers_view()[self.keys_view()[*key]] && p.props.wf(),
                None => !self.keys_view().contains_key(*key) || !self.peers_view().contains_key(
                    self.keys_view()[*key],
                ),
            },
    {
        match self.public_keys.get(key) {
            Some(id) => self.peers.get(id),
            None => None,
        }
    }

    /// Forgets a peer and its key.
    pub fn remove_peer(&mut self, id: PeerId)
        requires
            old(self).wf(),
        ensures
            final(self).wf(),
            final(self).own_key() == old(self).own_key(),
            (final(self).peers_view(), final(self).keys_view()) == remove_maps(
                old(self).peers_view(),
                old(self).keys_view(),
                id,
            ),
    {
        match self.peers.remove(&id) {
            Some(peer) => {
                self.public_keys.remove(&peer.public_key);
            },
            None => {},
        }
        assert(self.peers_view() =~= old(self).peers_view().remove(id));
        assert(self.keys_view() =~= remove_maps(old(self).peers_view(), old(self).keys_view(), id).1);
    }

    /// Adds a peer that the server announces, replacing any peer with the
    /// same id or the same public key.
    pub fn insert(&mut self, p: RemotePeer, room: &StableId)
        requires
            old(self).wf(),
            p.props.wf(),
        ensures
            final(self).wf(),
            final(self).own_key() == old(self).own_key(),
            (final(self).peers_view(), final(self).keys_view()) == insert_maps(
                old(self).peers_view(),
                old(self).keys_view(),
                PeerView {
                    id: p.id,
                    props: p.props@,
                    public_key: p.public_key,
                    in_room: prop(p.props@, Key::Room).as_stable_id() == *room,
                },
            ),
    {
        let ghost old_peers = self.peers_view();
        match self.public_keys.insert(p.public_key, p.id) {
            Some(old) => {
                self.peers.remove(&old);
            },
            None => {},
        }
        let ghost peers1 = self.peers_view();
        proof {
            if old(self).keys_view().contains_key(p.public_key) {
                assert(peers1 =~= old_peers.remove(old(self).keys_view()[p.public_key]));
            } else {
                assert(peers1 =~= old_peers);
            }
        }
        let in_room = p.props.get_stable_id(Key::Room).same(room);
        let peer = Peer { id: p.id, props: p.props, public_key: p.public_key, in_room };
        let ghost pv = peer@;
        match self.peers.insert(p.id, peer) {
            Some(old) => {
                self.public_keys.remove(&old.public_key);
            },
            None => {},
        }
        assert(self.peers_view() =~= peers1.insert(p.id, pv));
    }

    /// Sets a property of peer `id` (see `Peer::update`); returns whether
    /// the peer is known.
    pub fn update_peer(&mut self, id: PeerId, key: Key, value: Value, room: &StableId) -> (r: bool)
        requires
            old(self).wf(),
        ensures
            final(self).wf(),
            final(self).own_key() == old(self).own_key(),
            final(self).keys_view() == old(self).keys_view(),
            r == old(self).peers_view().contains_key(id),
            r ==> final(self).peers_view() == old(self).peers_view().insert(
                id,
                PeerView {
                    props: old(self).peers_view()[id].props.insert(key, value@),
                    in_room: if key == Key::Room {
                        value@.as_stable_id() == *room
                    } else {
                        old(self).peers_view()[id].in_room
                    },
                    ..old(self).peers_view()[id]
                },
            ),
            !r ==> final(self).peers_view() == old(self).peers_view(),
    {
        match self.peers.remove(&id) {
            Some(mut peer) => {
                peer.update(key, value, room);
                let ghost pv = peer@;
                self.peers.insert(id, peer);
                assert(self.peers_view() =~= old(self).peers_view().insert(id, pv));
                true
            },
            None => {
                assert(self.peers_view() =~= old(self).peers_view());
                false
            },
        }
    }

    /// Recomputes, for every peer, whether it is in room `room`.
    pub fn update_rooms(&mut self, room: &StableId)
        requires
            old(self).wf(),
        ensures
            final(self).wf(),
            final(self).own_key() == old(self).own_key(),
            final(self).keys_view() == old(self).keys_view(),
            final(self).peers_view().dom() == old(self).peers_view().dom(),
            forall|id: PeerId| #[trigger]
                old(self).peers_view().contains_key(id) ==> final(self).peers_view()[id] == (PeerView {
                    in_room: prop(old(self).peers_view()[id].props, Key::Room).as_stable_id() == *room,
                    ..old(self).peers_view()[id]
                }),
    {
        let ids = self.peers.keys();
        let mut i: usize = 0;
        while i < ids.len()
            invariant
                0 <= i <= ids@.len(),
                self.wf(),
                self.public_key == old(self).public_key,
                self.public_keys == old(self).public_keys,
                forall|a: int, b: int| 0 <= a < b < ids@.len() ==> ids@[a] != ids@[b],
                forall|k: PeerId| #[trigger] ids@.contains(k) <==> old(self).peers_view().contains_key(k),
                self.peers_view().dom() == old(self).peers_view().dom(),
                forall|id: PeerId| #[trigger]
                    self.peers_view().contains_key(id) ==> self.peers_view()[id] == if ids@.take(
                        i as int,
                    ).contains(id) {
                        PeerView {
                            in_room: prop(old(self).peers_view()[id].props, Key::Room).as_stable_id()
                                == *room,
                            ..old(self).peers_view()[id]
                        }
                    } else {
                        old(self).peers_view()[id]
                    },
            decreases ids@.len() - i,
        {
            let id = ids[i];
            let ghost before = self.peers_view();
            proof {
                assert(ids@.contains(id));
                assert(ids@.take(i + 1) =~= ids@.take(i as int).push(id));
                assert(!ids@.take(i as int).contains(id)) by {
                    if ids@.take(i as int).contains(id) {
                        let k = choose|k: int| 0 <= k < i && ids@.take(i as int)[k] == id;
                        assert(ids@[k] == ids@[i as int]);
                    }
                }
            }
            match self.peers.remove(&id) {
                Some(mut peer) => {
                    peer.update_config(room);
                    let ghost pv = peer@;
                    self.peers.insert(id, peer);
                    proof {
                        assert(self.peers_view() =~= before.insert(id, pv));
                        assert forall|x: PeerId| #[trigger]
                            self.peers_view().contains_key(x) implies self.peers_view()[x] == if ids@.take(
                                i + 1,
                            ).contains(x) {
                                PeerView {
                                    in_room: prop(old(self).peers_view()[x].props, Key::Room).as_stable_id()
                                        == *room,
                                    ..old(self).peers_view()[x]
                                }
                            } else {
                                old(self).peers_view()[x]
                            } by {
                            if x == id {
                                assert(ids@.take(i + 1)[i as int] == id);
                            } else {
                                assert(ids@.take(i + 1).contains(x) == ids@.take(i as int).contains(x));
                            }
                        }
                    }
                },
                None => {
                    proof {
                        assert(false);
                    }
                },
            }
            i = i + 1;
        }
        proof {
            assert(ids@.take(i as int) =~= ids@);
        }
    }

    /// The identifier, in this session, of the object with stable id `id`;
    /// the root where its owner is unknown.
    pub fn to_remote_id(&self, id: &StableId) -> (r: RemoteId)
        requires
            self.wf(),
        ensures
            r == spec_to_remote(self.own_key(), self.keys_view(), *id),
    {
        if id.public_key.same(&self.public_key) {
            return RemoteId::local(id.id);
        }
        match self.public_keys.get(&id.public_key) {
            Some(peer_id) => RemoteId::new(*peer_id, id.id),
            None => RemoteId::zero(),
        }
    }

    /// The stable identifier of object `id`; the zero id where its owner is
    /// unknown.
    pub fn to_stable_id(&self, id: &RemoteId) -> (r: StableId)
        requires
            self.wf(),
        ensures
            r == spec_to_stable(self.own_key(), self.peers_view(), *id),
    {
        if id.is_local() {
            return StableId::new(self.public_key, id.id);
        }
        match self.peers.get(&id.peer_id) {
            Some(peer) => StableId::new(peer.public_key, id.id),
            None => StableId::zero(),
        }
    }
}

} // verus!

verus! {

/// Adding a peer keeps the maps mirrored; afterwards the peer is found both
/// by its id and by its public key.
pub proof fn law_insert_consistent(
    peers: Map<PeerId, PeerView>,
    keys: Map<PublicKey, PeerId>,
    pv: PeerView,
)
    requires
        maps_consistent(peers, keys),
    ensures
        maps_consistent(insert_maps(peers, keys, pv).0, insert_maps(peers, keys, pv).1),
        insert_maps(peers, keys, pv).0.contains_key(pv.id),
        insert_maps(peers, keys, pv).0[pv.id] == pv,
        insert_maps(peers, keys, pv).1.contains_key(pv.public_key),
        insert_maps(peers, keys, pv).1[pv.public_key] == pv.id,
{
    let k = pv.public_key;
    let id = pv.id;
    let keys1 = keys.insert(k, id);
    let peers1 = if keys.contains_key(k) {
        peers.remove(keys[k])
    } else {
        peers
    };
    let (p2, k2) = insert_maps(peers, keys, pv);
    if peers1.contains_key(id) {
        assert(peers1[id] == peers[id]);
        assert(peers1[id].public_key != k);
    }
    assert forall|x: PeerId| #[trigger] p2.contains_key(x) implies k2.contains_key(
        p2[x].public_key,
    ) && k2[p2[x].public_key] == x by {
        if x != id {
            assert(peers1.contains_key(x));
            assert(peers.contains_key(x));
            let kx = peers[x].public_key;
            assert(keys[kx] == x);
            if kx == k {
                assert(keys.contains_key(k) && keys[k] == x);
                assert(!peers1.contains_key(x));
            }
            if peers1.contains_key(id) {
                assert(peers1[id].public_key != kx);
            }
        }
    }
    assert forall|y: PublicKey| #[trigger] k2.contains_key(y) implies p2.contains_key(k2[y])
        && p2[k2[y]].public_key == y by {
        if y != k {
            assert(keys.contains_key(y));
            let px = keys[y];
            assert(peers.contains_key(px) && peers[px].public_key == y);
            if keys.contains_key(k) && keys[k] == px {
                assert(peers[px].public_key == k);
            }
            if px == id {
                assert(peers1.contains_key(id));
                assert(peers1[id].public_key == y);
                assert(!k2.contains_key(y));
            }
        }
    }
}

/// Forgetting a peer keeps the maps mirrored; afterwards neither its id nor
/// its key is known.
pub proof fn law_remove_consistent(
    peers: Map<PeerId, PeerView>,
    keys: Map<PublicKey, PeerId>,
    id: PeerId,
)
    requires
        maps_consistent(peers, keys),
    ensures
        maps_consistent(remove_maps(peers, keys, id).0, remove_maps(peers, keys, id).1),
        !remove_maps(peers, keys, id).0.contains_key(id),
        peers.contains_key(id) ==> !remove_maps(peers, keys, id).1.contains_key(
            peers[id].public_key,
        ),
        forall|k: PublicKey| #[trigger]
            remove_maps(peers, keys, id).1.contains_key(k) ==> remove_maps(peers, keys, id).1[k]
                != id,
{
    let (p2, k2) = remove_maps(peers, keys, id);
    assert forall|y: PublicKey| #[trigger] k2.contains_key(y) implies p2.contains_key(k2[y])
        && p2[k2[y]].public_key == y by {
        assert(keys.contains_key(y));
        if keys[y] == id {
            assert(peers[id].public_key == y);
        }
    }
}

/// Mapping a stable identifier into the session and back gives it back,
/// where its owner is this client or a known peer.
pub proof fn law_stable_round_trip(
    own: PublicKey,
    peers: Map<PeerId, PeerView>,
    keys: Map<PublicKey, PeerId>,
    s: StableId,
)
    requires
        maps_consistent(peers, keys),
        forall|p: PeerId| #[trigger] peers.contains_key(p) ==> p.0 != 0 && peers[p].public_key != own,
        s.public_key == own || keys.contains_key(s.public_key),
    ensures
        spec_to_stable(own, peers, spec_to_remote(own, keys, s)) == s,
{
    if s.public_key != own {
        assert(peers.contains_key(keys[s.public_key]));
    }
}

/// Mapping a session identifier to a stable one and back gives it
/// back, where it belongs to this client or to a known peer.
pub proof fn law_remote_round_trip(
    own: PublicKey,
    peers: Map<PeerId, PeerView>,
    keys: Map<PublicKey, PeerId>,
    r: RemoteId,
)
    requires
        maps_consistent(peers, keys),
        forall|p: PeerId| #[trigger] peers.contains_key(p) ==> peers[p].public_key != own,
        r.peer_id.0 == 0 || peers.contains_key(r.peer_id),
    ensures
        spec_to_remote(own, keys, spec_to_stable(own, peers, r)) == r,
{
}

} // verus!
