use vstd::prelude::*;
use vstd::utf8::{encode_utf8, encode_utf8_decode_utf8};

use crate::ids::{zero_stable_id, PeerId, PublicKey, RemoteId, StableId};
use crate::peers::{insert_maps, remove_maps, spec_to_stable, PeerView, Peers};
use crate::sort_key::{
    bytes_lt, compare_bytes, lemma_bytes_lt_irreflexive, lemma_bytes_lt_total,
    lemma_bytes_lt_transitive, Cmp,
};
use crate::values::{prop, Key, Properties, RemoteObject, RemotePeer, Type, Value, ValueView};

verus! {

/// A room as the room list shows it: its stable id and its name.
#[derive(Debug)]
pub struct Room {
    pub id: StableId,
    pub name: String,
}

/// What a room holds.
pub struct RoomView {
    pub id: StableId,
    pub name: Seq<char>,
}

impl View for Room {
    type V = RoomView;

    open spec fn view(&self) -> RoomView {
        RoomView { id: self.id, name: self.name@ }
    }
}

/// Stable ids are ordered by the bytes of their public key, then by number.
pub open spec fn stable_lt(a: StableId, b: StableId) -> bool {
    bytes_lt(a.public_key.0@, b.public_key.0@) || (a.public_key == b.public_key && a.id.0 < b.id.0)
}

/// Rooms are ordered by name, compared as the bytes of its UTF-8 encoding,
/// then by stable id.
pub open spec fn room_lt(a: RoomView, b: RoomView) -> bool {
    bytes_lt(encode_utf8(a.name), encode_utf8(b.name)) || (a.name == b.name && stable_lt(a.id, b.id))
}

/// No room of the list comes before one that precedes it.
pub open spec fn sorted_rooms(s: Seq<RoomView>) -> bool {
    forall|i: int, j: int| 0 <= i < j < s.len() ==> !room_lt(#[trigger] s[j], #[trigger] s[i])
}

proof fn lemma_key_bytes_eq(a: PublicKey, b: PublicKey)
    requires
        a.0@ == b.0@,
    ensures
        a == b,
{
    assert(a.0 =~= b.0);
}

/// `room_lt` is a strict total order on rooms.
pub proof fn lemma_room_lt_order()
    ensures
        forall|a: RoomView| !room_lt(a, a),
        forall|a: RoomView, b: RoomView, c: RoomView|
            #[trigger] room_lt(a, b) && #[trigger] room_lt(b, c) ==> room_lt(a, c),
        forall|a: RoomView, b: RoomView| a != b ==> room_lt(a, b) || room_lt(b, a),
        forall|a: RoomView, b: RoomView| room_lt(a, b) ==> !room_lt(b, a),
{
    assert forall|a: RoomView| !room_lt(a, a) by {
        lemma_bytes_lt_irreflexive(encode_utf8(a.name));
        lemma_bytes_lt_irreflexive(a.id.public_key.0@);
    }
    assert forall|a: RoomView, b: RoomView, c: RoomView|
        #[trigger] room_lt(a, b) && #[trigger] room_lt(b, c) implies room_lt(a, c) by {
        let (ea, eb, ec) = (encode_utf8(a.name), encode_utf8(b.name), encode_utf8(c.name));
        if bytes_lt(ea, eb) && bytes_lt(eb, ec) {
            lemma_bytes_lt_transitive(ea, eb, ec);
        }
        let (ka, kb, kc) = (a.id.public_key.0@, b.id.public_key.0@, c.id.public_key.0@);
        if bytes_lt(ka, kb) && bytes_lt(kb, kc) {
            lemma_bytes_lt_transitive(ka, kb, kc);
        }
    }
    assert forall|a: RoomView, b: RoomView| a != b implies room_lt(a, b) || room_lt(b, a) by {
        let (ea, eb) = (encode_utf8(a.name), encode_utf8(b.name));
        lemma_bytes_lt_total(ea, eb);
        if ea == eb {
            encode_utf8_decode_utf8(a.name);
            encode_utf8_decode_utf8(b.name);
            assert(a.name == b.name);
            let (ka, kb) = (a.id.public_key.0@, b.id.public_key.0@);
            lemma_bytes_lt_total(ka, kb);
            if ka == kb {
                lemma_key_bytes_eq(a.id.public_key, b.id.public_key);
                assert(a.id.id.0 != b.id.id.0) by {
                    if a.id.id.0 == b.id.id.0 {
                        assert(a.id == b.id);
                        assert(a == b);
                    }
                }
            }
        }
    }
    assert forall|a: RoomView, b: RoomView| room_lt(a, b) implies !room_lt(b, a) by {
        let (ea, eb) = (encode_utf8(a.name), encode_utf8(b.name));
        lemma_bytes_lt_irreflexive(ea);
        lemma_bytes_lt_irreflexive(eb);
        if bytes_lt(ea, eb) && bytes_lt(eb, ea) {
            lemma_bytes_lt_transitive(ea, eb, ea);
        }
        let (ka, kb) = (a.id.public_key.0@, b.id.public_key.0@);
        lemma_bytes_lt_irreflexive(ka);
        lemma_bytes_lt_irreflexive(kb);
        if bytes_lt(ka, kb) && bytes_lt(kb, ka) {
            lemma_bytes_lt_transitive(ka, kb, ka);
        }
    }
}

/// Compares two public keys byte by byte.
fn compare_keys(a: &PublicKey, b: &PublicKey) -> (r: Cmp)
    ensures
        r == Cmp::Less <==> bytes_lt(a.0@, b.0@),
        r == Cmp::Equal <==> a == b,
        r == Cmp::Greater <==> bytes_lt(b.0@, a.0@),
{
    let r = compare_bytes(vstd::array::array_as_slice(&a.0), vstd::array::array_as_slice(&b.0));
    proof {
        broadcast use vstd::array::group_array_axioms;
        if a.0@ == b.0@ {
            lemma_key_bytes_eq(*a, *b);
        }
    }
    r
}

/// Whether room `a` comes before room `b` in the room list.
pub fn room_less(a: &Room, b: &Room) -> (r: bool)
    ensures
        r == room_lt(a@, b@),
{
    let na = a.name.as_str().as_bytes();
    let nb = b.name.as_str().as_bytes();
    match compare_bytes(na, nb) {
        Cmp::Less => true,
        Cmp::Greater => false,
        Cmp::Equal => {
            proof {
                encode_utf8_decode_utf8(a.name@);
                encode_utf8_decode_utf8(b.name@);
            }
            match compare_keys(&a.id.public_key, &b.id.public_key) {
                Cmp::Less => true,
                Cmp::Greater => false,
                Cmp::Equal => a.id.id.0 < b.id.id.0,
            }
        },
    }
}

/// The room that object `object` with stable id `id` stands for, if it is
/// a room: named after its name property, empty where it has none.
pub open spec fn spec_room_of(id: StableId, ty: Type, props: Map<Key, ValueView>) -> Option<RoomView> {
    if ty == Type::Room {
        Some(RoomView { id, name: prop(props, Key::Name).as_str() })
    } else {
        None
    }
}

/// Only a room object makes a room, and the room carries the stable id it
/// is known under and the object's name property.
pub proof fn law_room_of(id: StableId, ty: Type, props: Map<Key, ValueView>)
    ensures
        spec_room_of(id, ty, props) is Some <==> ty == Type::Room,
        ty == Type::Room ==> spec_room_of(id, ty, props).unwrap().id == id && spec_room_of(
            id,
            ty,
            props,
        ).unwrap().name == prop(props, Key::Name).as_str(),
{
}

impl Room {
    /// The room that `object`, known under stable id `id`, stands for;
    /// `None` where it is not a room.
    pub fn from_remote(id: StableId, object: &RemoteObject) -> (r: Option<Room>)
        requires
            object.props.wf(),
        ensures
            r is Some <==> object.ty == Type::Room,
            r matches Some(room) ==> Some(room@) == spec_room_of(id, object.ty, object.props@),
    {
        if object.ty != Type::Room {
            return None;
        }
        let name = object.props.get_str(Key::Name).to_owned();
        Some(Room { id, name })
    }

    /// Applies a property change; only the name matters to the room list.
    /// Returns whether the key was the name.
    pub fn update(&mut self, key: Key, value: &Value) -> (r: bool)
        ensures
            r == (key == Key::Name),
            final(self)@ == if key == Key::Name {
                RoomView { name: value@.as_str(), ..old(self)@ }
            } else {
                old(self)@
            },
    {
        match key {
            Key::Name => {
                self.name = value.as_str().to_owned();
                true
            },
            _ => false,
        }
    }
}

/// The views of a list of rooms.
pub open spec fn room_views(s: Seq<Room>) -> Seq<RoomView> {
    s.map_values(|r: Room| r@)
}

/// Which rooms a filter of the room list keeps.
pub enum RoomFilter {
    /// The rooms that the key does not own.
    NotOwnedBy(PublicKey),
    /// The rooms with another stable id.
    NotId(StableId),
}

/// Whether filter `f` keeps room `r`.
pub open spec fn kept(f: RoomFilter, r: RoomView) -> bool {
    match f {
        RoomFilter::NotOwnedBy(key) => r.id.public_key != key,
        RoomFilter::NotId(id) => r.id != id,
    }
}

/// Whether filter `f` keeps room `r`.
fn keeps(f: &RoomFilter, r: &Room) -> (b: bool)
    ensures
        b == kept(*f, r@),
{
    match f {
        RoomFilter::NotOwnedBy(key) => !r.id.public_key.same(key),
        RoomFilter::NotId(id) => !r.id.same(id),
    }
}

/// Filtering keeps a sorted list sorted.
pub proof fn lemma_filter_sorted(s: Seq<RoomView>, p: spec_fn(RoomView) -> bool)
    requires
        sorted_rooms(s),
    ensures
        sorted_rooms(s.filter(p)),
    decreases s.len(),
{
    reveal(Seq::filter);
    if s.len() > 0 {
        let init = s.drop_last();
        assert forall|i: int, j: int| 0 <= i < j < init.len() implies !room_lt(
            #[trigger] init[j],
            #[trigger] init[i],
        ) by {
            assert(init[i] == s[i] && init[j] == s[j]);
        }
        lemma_filter_sorted(init, p);
        let f = init.filter(p);
        if p(s.last()) {
            let g = f.push(s.last());
            assert forall|i: int, j: int| 0 <= i < j < g.len() implies !room_lt(
                #[trigger] g[j],
                #[trigger] g[i],
            ) by {
                if j == g.len() - 1 {
                    assert(f.contains(g[i])) by {
                        assert(f[i] == g[i]);
                    }
                    init.lemma_filter_contains_rev(p, g[i]);
                    let k = choose|k: int| 0 <= k < init.len() && init[k] == g[i];
                    assert(s[k] == g[i]);
                    assert(s[s.len() - 1] == g[j]);
                } else {
                    assert(g[i] == f[i] && g[j] == f[j]);
                }
            }
        }
    }
}

/// Keeps the rooms that filter `f` keeps, in order.
fn retain_rooms(rooms: &mut Vec<Room>, f: &RoomFilter)
    ensures
        room_views(final(rooms)@) == room_views(old(rooms)@).filter(|r: RoomView| kept(*f, r)),
{
    let ghost p = |r: RoomView| kept(*f, r);
    let ghost all = room_views(rooms@);
    let ghost mut j: int = 0;
    let mut i: usize = 0;
    proof {
        reveal(Seq::filter);
        assert(all.take(0).filter(p) =~= Seq::<RoomView>::empty());
        assert(room_views(rooms@) =~= all.take(0).filter(p) + all.skip(0));
    }
    while i < rooms.len()
        invariant
            0 <= j <= all.len(),
            i == all.take(j).filter(p).len(),
            room_views(rooms@) == all.take(j).filter(p) + all.skip(j),
            p == (|r: RoomView| kept(*f, r)),
            all == room_views(old(rooms)@),
        decreases all.len() - j,
    {
        let ghost before = room_views(rooms@);
        proof {
            assert(before[i as int] == all.skip(j)[0]);
            assert(all.skip(j)[0] == all[j]);
            assert(all.take(j + 1).drop_last() =~= all.take(j));
            assert(all.take(j + 1).last() == all[j]);
            reveal(Seq::filter);
        }
        if keeps(f, &rooms[i]) {
            i = i + 1;
            proof {
                assert(p(all[j]));
                assert(all.take(j + 1).filter(p) == all.take(j).filter(p).push(all[j]));
                assert(all.skip(j + 1) =~= all.skip(j).drop_first());
                j = j + 1;
                assert(room_views(rooms@) =~= all.take(j).filter(p) + all.skip(j));
            }
        } else {
            rooms.remove(i);
            proof {
                assert(room_views(rooms@) =~= before.remove(i as int));
                assert(!p(all[j]));
                assert(all.take(j + 1).filter(p) == all.take(j).filter(p));
                assert(all.skip(j + 1) =~= all.skip(j).drop_first());
                j = j + 1;
                assert(room_views(rooms@) =~= all.take(j).filter(p) + all.skip(j));
            }
        }
    }
    proof {
        assert(all.take(j) =~= all);
        assert(room_views(rooms@) =~= all.filter(p));
    }
}

/// Inserts `room` into the sorted list after every room that does not come
/// after it.
fn insert_sorted(rooms: &mut Vec<Room>, room: Room)
    requires
        sorted_rooms(room_views(old(rooms)@)),
    ensures
        sorted_rooms(room_views(final(rooms)@)),
        room_views(final(rooms)@).to_multiset() == room_views(old(rooms)@).to_multiset().insert(
            room@,
        ),
{
    let ghost all = room_views(rooms@);
    let mut i: usize = 0;
    while i < rooms.len() && !room_less(&room, &rooms[i])
        invariant
            0 <= i <= rooms@.len(),
            rooms@ == old(rooms)@,
            all == room_views(rooms@),
            forall|k: int| 0 <= k < i ==> !room_lt(room@, #[trigger] all[k]),
        decreases rooms@.len() - i,
    {
        i = i + 1;
    }
    let ghost v = room@;
    rooms.insert(i, room);
    proof {
        lemma_room_lt_order();
        let s = room_views(rooms@);
        assert(s =~= all.insert(i as int, v));
        vstd::seq_lib::to_multiset_insert(all, i as int, v);
        assert forall|a: int, b: int| 0 <= a < b < s.len() implies !room_lt(
            #[trigger] s[b],
            #[trigger] s[a],
        ) by {
            if b < i {
                assert(s[a] == all[a] && s[b] == all[b]);
            } else if b == i {
                assert(s[a] == all[a]);
                assert(!room_lt(v, all[a]));
            } else if a == i {
                assert(s[b] == all[b - 1]);
                assert(room_lt(v, all[i as int]));
                if i < b - 1 {
                    assert(!room_lt(all[b - 1], all[i as int]));
                }
            } else if a < i {
                assert(s[a] == all[a] && s[b] == all[b - 1]);
            } else {
                assert(s[a] == all[a - 1] && s[b] == all[b - 1]);
            }
        }
    }
}

} // verus!

verus! {

/// How the server's description of a peer is held, where `room` is the
/// active room.
pub open spec fn peer_view_of(p: RemotePeer, room: StableId) -> PeerView {
    PeerView {
        id: p.id,
        props: p.props@,
        public_key: p.public_key,
        in_room: prop(p.props@, Key::Room).as_stable_id() == room,
    }
}

/// A peer is held with the identifier, key and properties it was described
/// with, and is in the active room exactly when its room property names it.
pub proof fn law_peer_view(p: RemotePeer, room: StableId)
    ensures
        peer_view_of(p, room).id == p.id,
        peer_view_of(p, room).public_key == p.public_key,
        peer_view_of(p, room).props == p.props@,
        peer_view_of(p, room).in_room <==> prop(p.props@, Key::Room).as_stable_id() == room,
{
}

/// The peer maps after the peers `ps` were added in turn.
pub open spec fn peers_added(
    m: (Map<PeerId, PeerView>, Map<PublicKey, PeerId>),
    ps: Seq<RemotePeer>,
    room: StableId,
) -> (Map<PeerId, PeerView>, Map<PublicKey, PeerId>)
    decreases ps.len(),
{
    if ps.len() == 0 {
        m
    } else {
        let m2 = peers_added(m, ps.drop_last(), room);
        insert_maps(m2.0, m2.1, peer_view_of(ps.last(), room))
    }
}

/// The rooms among the objects `objs` of this client, whose key is `own`.
pub open spec fn local_rooms(own: PublicKey, objs: Seq<RemoteObject>) -> Seq<RoomView>
    decreases objs.len(),
{
    if objs.len() == 0 {
        Seq::empty()
    } else {
        let r = local_rooms(own, objs.drop_last());
        let o = objs.last();
        match spec_room_of(StableId { public_key: own, id: o.id }, o.ty, o.props@) {
            Some(v) => r.push(v),
            None => r,
        }
    }
}

/// The rooms among the objects `objs` of other peers, each given with the
/// peer that owns it.
pub open spec fn peer_rooms(
    own: PublicKey,
    peers: Map<PeerId, PeerView>,
    objs: Seq<(PeerId, RemoteObject)>,
) -> Seq<RoomView>
    decreases objs.len(),
{
    if objs.len() == 0 {
        Seq::empty()
    } else {
        let r = peer_rooms(own, peers, objs.drop_last());
        let (peer, o) = objs.last();
        let id = spec_to_stable(own, peers, RemoteId { peer_id: peer, id: o.id });
        match spec_room_of(id, o.ty, o.props@) {
            Some(v) => r.push(v),
            None => r,
        }
    }
}

/// The peers whose room property names room `room`.
pub open spec fn peers_in(peers: Map<PeerId, PeerView>, room: StableId) -> Set<PeerId> {
    Set::new(
        |p: PeerId| peers.contains_key(p) && prop(peers[p].props, Key::Room).as_stable_id() == room,
    )
}

/// The number of players in room `room`: the peers there, and this client
/// where `room` is its active room.
pub open spec fn players_in(peers: Map<PeerId, PeerView>, active: StableId, room: StableId) -> int {
    peers_in(peers, room).len() + if active == room {
        1int
    } else {
        0int
    }
}

/// Who owns a room, as the room list tells it.
#[derive(Debug)]
pub enum Owner {
    /// This client.
    You,
    /// A known peer, by the name under which it is shown.
    Peer(String),
    /// No peer that this client knows.
    Unknown,
}

/// The state of the room list: the peers of the session, the rooms in
/// order, and the room this client is in.
pub struct Rooms {
    peers: Peers,
    rooms: Vec<Room>,
    active_room: StableId,
}

impl Rooms {
    /// The peers of the session.
    pub closed spec fn peer_set(&self) -> Peers {
        self.peers
    }

    /// The rooms, in the order the list shows them.
    pub closed spec fn list(&self) -> Seq<RoomView> {
        room_views(self.rooms@)
    }

    /// The room this client is in; the zero id for none.
    pub closed spec fn active(&self) -> StableId {
        self.active_room
    }

    /// The peers are well formed and the rooms are sorted.
    pub closed spec fn wf(&self) -> bool {
        &&& self.peers.wf()
        &&& sorted_rooms(room_views(self.rooms@))
    }

    /// Every handler keeps the rooms listed in order, by name and then by
    /// identifier: the list of a well-formed state is sorted.
    pub proof fn law_list_sorted(&self)
        requires
            self.wf(),
        ensures
            sorted_rooms(self.list()),
    {
    }

    pub fn new() -> (r: Rooms)
        ensures
            r.wf(),
            r.list() == Seq::<RoomView>::empty(),
            r.active() == zero_stable_id(),
            r.peer_set().peers_view() == Map::<PeerId, PeerView>::empty(),
            r.peer_set().keys_view() == Map::<PublicKey, PeerId>::empty(),
            r.peer_set().own_key() == PublicKey(crate::ids::spec_zero_key()),
    {
        let r = Rooms { peers: Peers::new(), rooms: Vec::new(), active_room: StableId::zero() };
        assert(r.list() =~= Seq::<RoomView>::empty());
        r
    }

    /// The rooms, in order.
    pub fn rooms(&self) -> (r: &Vec<Room>)
        ensures
            room_views(r@) == self.list(),
    {
        &self.rooms
    }

    /// The peers of the session.
    pub fn peers(&self) -> (r: &Peers)
        ensures
            *r == self.peer_set(),
    {
        &self.peers
    }

    /// The room this client is in.
    pub fn active_room(&self) -> (r: StableId)
        ensures
            r == self.active(),
    {
        self.active_room
    }

    /// The connection opened or closed: the rooms are dropped, and where it
    /// closed, so are the peers, the public key and the active room.
    /// Always asks for a redraw.
    pub fn state_changed(&mut self, open: bool) -> (r: bool)
        requires
            old(self).wf(),
        ensures
            r,
            final(self).wf(),
            final(self).list() == Seq::<RoomView>::empty(),
            open ==> final(self).peer_set() == old(self).peer_set() && final(self).active()
                == old(self).active(),
            !open ==> {
                &&& final(self).active() == zero_stable_id()
                &&& final(self).peer_set().peers_view() == Map::<PeerId, PeerView>::empty()
                &&& final(self).peer_set().keys_view() == Map::<PublicKey, PeerId>::empty()
                &&& final(self).peer_set().own_key() == PublicKey(crate::ids::spec_zero_key())
            },
    {
        self.rooms = Vec::new();
        if !open {
            self.peers = Peers::new();
            self.active_room = StableId::zero();
        }
        assert(self.list() =~= Seq::<RoomView>::empty());
        true
    }

    /// The link to the server was lost: the rooms that this client owns
    /// are dropped. Always asks for a redraw.
    pub fn remote_lost(&mut self) -> (r: bool)
        requires
            old(self).wf(),
        ensures
            r,
            final(self).wf(),
            final(self).peer_set() == old(self).peer_set(),
            final(self).active() == old(self).active(),
            final(self).list() == old(self).list().filter(
                |v: RoomView| kept(RoomFilter::NotOwnedBy(old(self).peer_set().own_key()), v),
            ),
    {
        let f = RoomFilter::NotOwnedBy(self.peers.public_key());
        retain_rooms(&mut self.rooms, &f);
        proof {
            lemma_filter_sorted(room_views(old(self).rooms@), |v: RoomView| kept(f, v));
        }
        true
    }

    /// A peer connected. Always asks for a redraw.
    pub fn peer_connected(&mut self, peer: RemotePeer) -> (r: bool)
        requires
            old(self).wf(),
            peer.props.wf(),
        ensures
            r,
            final(self).wf(),
            final(self).list() == old(self).list(),
            final(self).active() == old(self).active(),
            final(self).peer_set().own_key() == old(self).peer_set().own_key(),
            (final(self).peer_set().peers_view(), final(self).peer_set().keys_view()) == insert_maps(
                old(self).peer_set().peers_view(),
                old(self).peer_set().keys_view(),
                peer_view_of(peer, old(self).active()),
            ),
    {
        self.peers.insert(peer, &self.active_room);
        true
    }

    /// A peer disconnected: it is forgotten and so are the rooms that its
    /// key owns. Returns whether the peer was known.
    pub fn peer_disconnect(&mut self, peer_id: PeerId) -> (r: bool)
        requires
            old(self).wf(),
        ensures
            final(self).wf(),
            r == old(self).peer_set().peers_view().contains_key(peer_id),
            final(self).active() == old(self).active(),
            final(self).peer_set().own_key() == old(self).peer_set().own_key(),
            r ==> {
                let key = old(self).peer_set().peers_view()[peer_id].public_key;
                &&& (final(self).peer_set().peers_view(), final(self).peer_set().keys_view())
                    == remove_maps(
                    old(self).peer_set().peers_view(),
                    old(self).peer_set().keys_view(),
                    peer_id,
                )
                &&& final(self).list() == old(self).list().filter(
                    |v: RoomView| kept(RoomFilter::NotOwnedBy(key), v),
                )
            },
            !r ==> final(self).peer_set() == old(self).peer_set() && final(self).list()
                == old(self).list(),
    {
        let key = match self.peers.get(peer_id) {
            Some(p) => p.public_key,
            None => {
                return false;
            },
        };
        self.peers.remove_peer(peer_id);
        let f = RoomFilter::NotOwnedBy(key);
        retain_rooms(&mut self.rooms, &f);
        proof {
            lemma_filter_sorted(room_views(old(self).rooms@), |v: RoomView| kept(f, v));
        }
        true
    }

    /// An object was created: where it is a room, it joins the list.
    /// Returns whether it is a room.
    pub fn object_created(&mut self, id: RemoteId, object: &RemoteObject) -> (r: bool)
        requires
            old(self).wf(),
            object.props.wf(),
        ensures
            final(self).wf(),
            final(self).peer_set() == old(self).peer_set(),
            final(self).active() == old(self).active(),
            r == (object.ty == Type::Room),
            r ==> final(self).list().to_multiset() == old(self).list().to_multiset().insert(
                spec_room_of(
                    spec_to_stable(
                        old(self).peer_set().own_key(),
                        old(self).peer_set().peers_view(),
                        id,
                    ),
                    object.ty,
                    object.props@,
                )->0,
            ),
            !r ==> final(self).list() == old(self).list(),
    {
        let sid = self.peers.to_stable_id(&id);
        match Room::from_remote(sid, object) {
            Some(room) => {
                insert_sorted(&mut self.rooms, room);
                true
            },
            None => false,
        }
    }

    /// An object was removed: the rooms with its stable id leave the list.
    /// Echoes of this client's own changes are ignored. Returns whether a
    /// room left.
    pub fn object_removed(&mut self, from_self: bool, id: RemoteId) -> (r: bool)
        requires
            old(self).wf(),
        ensures
            final(self).wf(),
            final(self).peer_set() == old(self).peer_set(),
            final(self).active() == old(self).active(),
            from_self ==> !r && final(self).list() == old(self).list(),
            !from_self ==> {
                let sid = spec_to_stable(
                    old(self).peer_set().own_key(),
                    old(self).peer_set().peers_view(),
                    id,
                );
                &&& final(self).list() == old(self).list().filter(
                    |v: RoomView| kept(RoomFilter::NotId(sid), v),
                )
                &&& r == (final(self).list().len() != old(self).list().len())
            },
    {
        if from_self {
            return false;
        }
        let sid = self.peers.to_stable_id(&id);
        let prev = self.rooms.len();
        let f = RoomFilter::NotId(sid);
        retain_rooms(&mut self.rooms, &f);
        proof {
            lemma_filter_sorted(room_views(old(self).rooms@), |v: RoomView| kept(f, v));
        }
        self.rooms.len() != prev
    }

    /// An object changed: where it is a listed room and its name changed,
    /// the room takes the new name and its place in the order. Echoes of
    /// this client's own changes are ignored. Returns whether a room's name
    /// was set.
    pub fn object_updated(&mut self, from_self: bool, id: RemoteId, key: Key, value: &Value) -> (r: bool)
        requires
            old(self).wf(),
        ensures
            final(self).wf(),
            final(self).peer_set() == old(self).peer_set(),
            final(self).active() == old(self).active(),
            ({
                let sid = spec_to_stable(
                    old(self).peer_set().own_key(),
                    old(self).peer_set().peers_view(),
                    id,
                );
                let s = old(self).list();
                if from_self || !has_room(s, sid) || key != Key::Name {
                    !r && final(self).list() == s
                } else {
                    let i = first_room(s, sid);
                    &&& r
                    &&& final(self).list().to_multiset() == s.to_multiset().remove(s[i]).insert(
                        RoomView { name: value@.as_str(), ..s[i] },
                    )
                }
            }),
    {
        if from_self {
            return false;
        }
        let sid = self.peers.to_stable_id(&id);
        let i = match find_room(&self.rooms, &sid) {
            Some(i) => i,
            None => {
                return false;
            },
        };
        if key != Key::Name {
            return false;
        }
        let ghost all = room_views(self.rooms@);
        let mut room = self.rooms.remove(i);
        proof {
            lemma_remove_sorted(all, i as int);
            assert(room_views(self.rooms@) =~= all.remove(i as int));
        }
        let r = room.update(key, value);
        insert_sorted(&mut self.rooms, room);
        r
    }

    /// The server sent the state of the session: this client's key, its
    /// settings, its own objects, the peers and their objects. The list is
    /// rebuilt from the rooms among the objects. Always asks for a redraw.
    pub fn initialize(
        &mut self,
        public_key: PublicKey,
        config: &Properties,
        local: Vec<RemoteObject>,
        peers: Vec<RemotePeer>,
        peer_objects: Vec<(PeerId, RemoteObject)>,
    ) -> (r: bool)
        requires
            old(self).wf(),
            config.wf(),
            forall|i: int| 0 <= i < local@.len() ==> (#[trigger] local@[i]).props.wf(),
            forall|i: int| 0 <= i < peers@.len() ==> (#[trigger] peers@[i]).props.wf(),
            forall|i: int| 0 <= i < peer_objects@.len() ==> (#[trigger] peer_objects@[i]).1.props.wf(),
        ensures
            r,
            final(self).wf(),
            final(self).peer_set().own_key() == public_key,
            final(self).active() == prop(config@, Key::Room).as_stable_id(),
            (final(self).peer_set().peers_view(), final(self).peer_set().keys_view())
                == peers_added(
                (Map::<PeerId, PeerView>::empty(), Map::<PublicKey, PeerId>::empty()),
                peers@,
                final(self).active(),
            ),
            final(self).list().to_multiset() == (local_rooms(public_key, local@) + peer_rooms(
                public_key,
                final(self).peer_set().peers_view(),
                peer_objects@,
            )).to_multiset(),
    {
        self.peers.set_public_key(public_key);
        self.active_room = config.get_stable_id(Key::Room);
        self.rooms = Vec::new();
        self.peers.clear();
        proof {
            broadcast use vstd::seq_lib::group_to_multiset_ensures;
            assert(room_views(self.rooms@) =~= Seq::<RoomView>::empty());
            assert(local@.take(0) =~= Seq::<RemoteObject>::empty());
        }
        let mut i: usize = 0;
        while i < local.len()
            invariant
                0 <= i <= local@.len(),
                self.wf(),
                self.peers.own_key() == public_key,
                self.active_room == prop(config@, Key::Room).as_stable_id(),
                self.peers.peers_view() == Map::<PeerId, PeerView>::empty(),
                self.peers.keys_view() == Map::<PublicKey, PeerId>::empty(),
                forall|j: int| 0 <= j < local@.len() ==> (#[trigger] local@[j]).props.wf(),
                room_views(self.rooms@).to_multiset() == local_rooms(
                    public_key,
                    local@.take(i as int),
                ).to_multiset(),
            decreases local@.len() - i,
        {
            let object = &local[i];
            let id = StableId::new(public_key, object.id);
            proof {
                assert(local@.take(i + 1).drop_last() =~= local@.take(i as int));
                assert(local@.take(i + 1).last() == local@[i as int]);
            }
            match Room::from_remote(id, object) {
                Some(room) => {
                    insert_sorted(&mut self.rooms, room);
                },
                None => {},
            }
            proof {
                broadcast use vstd::seq_lib::group_to_multiset_ensures;
            }
            i = i + 1;
        }
        proof {
            assert(local@.take(local@.len() as int) =~= local@);
        }
        let ghost local_ms = room_views(self.rooms@).to_multiset();
        let ghost all_peers = peers@;
        let ghost empty_maps = (Map::<PeerId, PeerView>::empty(), Map::<PublicKey, PeerId>::empty());
        let mut peers = peers;
        let ghost mut k: int = 0;
        proof {
            assert(all_peers.skip(0) =~= all_peers);
            assert(all_peers.take(0) =~= Seq::<RemotePeer>::empty());
        }
        while peers.len() > 0
            invariant
                0 <= k <= all_peers.len(),
                peers@ == all_peers.skip(k),
                self.wf(),
                self.peers.own_key() == public_key,
                self.active_room == prop(config@, Key::Room).as_stable_id(),
                forall|j: int| 0 <= j < all_peers.len() ==> (#[trigger] all_peers[j]).props.wf(),
                (self.peers.peers_view(), self.peers.keys_view()) == peers_added(
                    empty_maps,
                    all_peers.take(k),
                    self.active_room,
                ),
                room_views(self.rooms@).to_multiset() == local_ms,
            decreases peers@.len(),
        {
            let peer = peers.remove(0);
            proof {
                assert(peer == all_peers[k]);
                assert(all_peers.take(k + 1).drop_last() =~= all_peers.take(k));
                assert(all_peers.take(k + 1).last() == all_peers[k]);
            }
            self.peers.insert(peer, &self.active_room);
            proof {
                assert(peers@ =~= all_peers.skip(k + 1));
                k = k + 1;
            }
        }
        proof {
            assert(all_peers.take(k) =~= all_peers);
            assert(peer_objects@.take(0) =~= Seq::<(PeerId, RemoteObject)>::empty());
            assert(peer_rooms(public_key, self.peers.peers_view(), peer_objects@.take(0)) =~= Seq::<RoomView>::empty());
            assert(local_rooms(public_key, local@) + Seq::<RoomView>::empty() =~= local_rooms(public_key, local@));
        }
        let mut i: usize = 0;
        while i < peer_objects.len()
            invariant
                0 <= i <= peer_objects@.len(),
                self.wf(),
                self.peers.own_key() == public_key,
                self.active_room == prop(config@, Key::Room).as_stable_id(),
                (self.peers.peers_view(), self.peers.keys_view()) == peers_added(
                    empty_maps,
                    all_peers,
                    self.active_room,
                ),
                forall|j: int| 0 <= j < peer_objects@.len() ==> (#[trigger] peer_objects@[j]).1.props.wf(),
                room_views(self.rooms@).to_multiset() == (local_rooms(public_key, local@) + peer_rooms(
                    public_key,
                    self.peers.peers_view(),
                    peer_objects@.take(i as int),
                )).to_multiset(),
            decreases peer_objects@.len() - i,
        {
            let (peer_id, object) = (peer_objects[i].0, &peer_objects[i].1);
            let id = self.peers.to_stable_id(&RemoteId::new(peer_id, object.id));
            let ghost pv = self.peers.peers_view();
            let ghost lr = local_rooms(public_key, local@);
            let ghost before = peer_rooms(public_key, pv, peer_objects@.take(i as int));
            proof {
                assert(peer_objects@.take(i + 1).drop_last() =~= peer_objects@.take(i as int));
                assert(peer_objects@.take(i + 1).last() == peer_objects@[i as int]);
            }
            match Room::from_remote(id, object) {
                Some(room) => {
                    let ghost v = room@;
                    insert_sorted(&mut self.rooms, room);
                    proof {
                        broadcast use vstd::seq_lib::group_to_multiset_ensures;
                        assert(lr + before.push(v) =~= (lr + before).push(v));
                    }
                },
                None => {},
            }
            i = i + 1;
        }
        proof {
            assert(peer_objects@.take(peer_objects@.len() as int) =~= peer_objects@);
        }
        true
    }

    /// A property of a peer changed. Returns whether the peer is known and
    /// the property is one the list shows: its room or its name.
    pub fn peer_update(&mut self, peer_id: PeerId, key: Key, value: Value) -> (r: bool)
        requires
            old(self).wf(),
        ensures
            final(self).wf(),
            final(self).list() == old(self).list(),
            final(self).active() == old(self).active(),
            final(self).peer_set().own_key() == old(self).peer_set().own_key(),
            final(self).peer_set().keys_view() == old(self).peer_set().keys_view(),
            r == (old(self).peer_set().peers_view().contains_key(peer_id) && (key == Key::Room
                || key == Key::PeerName)),
            old(self).peer_set().peers_view().contains_key(peer_id) ==> final(self).peer_set().peers_view()
                == old(self).peer_set().peers_view().insert(
                peer_id,
                PeerView {
                    props: old(self).peer_set().peers_view()[peer_id].props.insert(key, value@),
                    in_room: if key == Key::Room {
                        value@.as_stable_id() == old(self).active()
                    } else {
                        old(self).peer_set().peers_view()[peer_id].in_room
                    },
                    ..old(self).peer_set().peers_view()[peer_id]
                },
            ),
            !old(self).peer_set().peers_view().contains_key(peer_id) ==> final(self).peer_set().peers_view()
                == old(self).peer_set().peers_view(),
    {
        if !self.peers.update_peer(peer_id, key, value, &self.active_room) {
            return false;
        }
        key == Key::Room || key == Key::PeerName
    }

    /// A setting of this client changed: a new room sets the active room.
    /// Echoes of this client's own changes are ignored. Returns whether the
    /// active room was set.
    pub fn config_update(&mut self, from_self: bool, key: Key, value: &Value) -> (r: bool)
        requires
            old(self).wf(),
        ensures
            final(self).wf(),
            final(self).list() == old(self).list(),
            final(self).peer_set() == old(self).peer_set(),
            r == (!from_self && key == Key::Room),
            final(self).active() == if r {
                value@.as_stable_id()
            } else {
                old(self).active()
            },
    {
        if from_self {
            return false;
        }
        match key {
            Key::Room => {
                self.active_room = value.as_stable_id();
                true
            },
            _ => false,
        }
    }

    /// The server sent this client's public key. Always asks for a redraw.
    pub fn public_key_update(&mut self, key: PublicKey) -> (r: bool)
        requires
            old(self).wf(),
        ensures
            r,
            final(self).wf(),
            final(self).list() == old(self).list(),
            final(self).active() == old(self).active(),
            final(self).peer_set().own_key() == key,
            final(self).peer_set().peers_view() == old(self).peer_set().peers_view(),
            final(self).peer_set().keys_view() == old(self).peer_set().keys_view(),
    {
        self.peers.set_public_key(key);
        true
    }

    /// Leaves the active room; returns the settings to send: no room.
    pub fn disconnect(&mut self) -> (r: Vec<(Key, Value)>)
        requires
            old(self).wf(),
        ensures
            final(self).wf(),
            final(self).list() == old(self).list(),
            final(self).peer_set() == old(self).peer_set(),
            final(self).active() == zero_stable_id(),
            r@.len() == 1,
            r@[0].0 == Key::Room,
            r@[0].1@ == ValueView::Empty,
    {
        self.active_room = StableId::zero();
        vec![(Key::Room, Value::Empty)]
    }

    /// Enters room `room`; returns the settings to send: that room.
    pub fn connect(&mut self, room: StableId) -> (r: Vec<(Key, Value)>)
        requires
            old(self).wf(),
        ensures
            final(self).wf(),
            final(self).list() == old(self).list(),
            final(self).peer_set() == old(self).peer_set(),
            final(self).active() == room,
            r@.len() == 1,
            r@[0].0 == Key::Room,
            r@[0].1@ == ValueView::StableId(room),
    {
        self.active_room = room;
        vec![(Key::Room, Value::StableId(room))]
    }
}

/// Whether some room of `s` has stable id `id`.
pub open spec fn has_room(s: Seq<RoomView>, id: StableId) -> bool {
    exists|i: int| 0 <= i < s.len() && (#[trigger] s[i]).id == id
}

/// The position of the first room of `s` with stable id `id`.
pub open spec fn first_room(s: Seq<RoomView>, id: StableId) -> int {
    choose|i: int|
        0 <= i < s.len() && (#[trigger] s[i]).id == id && forall|j: int|
            0 <= j < i ==> (#[trigger] s[j]).id != id
}

/// Removing a room keeps the list sorted, and removes it from its contents.
proof fn lemma_remove_sorted(all: Seq<RoomView>, i: int)
    requires
        sorted_rooms(all),
        0 <= i < all.len(),
    ensures
        sorted_rooms(all.remove(i)),
        all.remove(i).to_multiset() == all.to_multiset().remove(all[i]),
{
    vstd::seq_lib::to_multiset_remove(all, i);
    let t = all.remove(i);
    assert forall|a: int, b: int| 0 <= a < b < t.len() implies !room_lt(
        #[trigger] t[b],
        #[trigger] t[a],
    ) by {
        if b < i {
            assert(t[a] == all[a] && t[b] == all[b]);
        } else if a < i {
            assert(t[a] == all[a] && t[b] == all[b + 1]);
        } else {
            assert(t[a] == all[a + 1] && t[b] == all[b + 1]);
        }
    }
}

/// The position of the first room with stable id `id`.
fn find_room(rooms: &Vec<Room>, id: &StableId) -> (r: Option<usize>)
    ensures
        r is Some <==> has_room(room_views(rooms@), *id),
        r matches Some(i) ==> i == first_room(room_views(rooms@), *id) && i < rooms@.len(),
{
    let ghost s = room_views(rooms@);
    let mut i: usize = 0;
    while i < rooms.len()
        invariant
            0 <= i <= rooms@.len(),
            s == room_views(rooms@),
            forall|j: int| 0 <= j < i ==> (#[trigger] s[j]).id != *id,
        decreases rooms@.len() - i,
    {
        if rooms[i].id.same(id) {
            proof {
                assert(s[i as int].id == *id);
                let c = first_room(s, *id);
                assert(0 <= c < s.len() && s[c].id == *id && forall|j: int|
                    0 <= j < c ==> (#[trigger] s[j]).id != *id);
                if c < i {
                    assert(s[c].id != *id);
                }
                if c > i {
                    assert(s[i as int].id != *id);
                }
            }
            return Some(i);
        }
        i = i + 1;
    }
    None
}

/// A sorted room list is determined by the rooms it holds: two sorted lists
/// of the same rooms are equal.
pub proof fn law_sorted_rooms_unique(a: Seq<RoomView>, b: Seq<RoomView>)
    requires
        sorted_rooms(a),
        sorted_rooms(b),
        a.to_multiset() == b.to_multiset(),
    ensures
        a == b,
    decreases a.len(),
{
    broadcast use vstd::seq_lib::group_to_multiset_ensures;

    lemma_room_lt_order();
    assert(a.len() == a.to_multiset().len() && b.len() == b.to_multiset().len());
    if a.len() == 0 {
        assert(b.len() == 0);
        assert(a =~= b);
    } else {
        assert(b.len() == a.len());
        assert(a.contains(a[0]));
        assert(a.to_multiset().count(a[0]) > 0);
        assert(b.to_multiset().count(a[0]) > 0);
        assert(b.contains(a[0]));
        assert(b.contains(b[0]));
        assert(b.to_multiset().count(b[0]) > 0);
        assert(a.to_multiset().count(b[0]) > 0);
        assert(a.contains(b[0]));
        let ka = choose|k: int| 0 <= k < b.len() && b[k] == a[0];
        let kb = choose|k: int| 0 <= k < a.len() && a[k] == b[0];
        if ka > 0 {
            assert(!room_lt(b[ka], b[0]));
        }
        if kb > 0 {
            assert(!room_lt(a[kb], a[0]));
        }
        assert(a[0] == b[0]);
        vstd::seq_lib::to_multiset_remove(a, 0);
        vstd::seq_lib::to_multiset_remove(b, 0);
        let ta = a.remove(0);
        let tb = b.remove(0);
        assert forall|i: int, j: int| 0 <= i < j < ta.len() implies !room_lt(#[trigger] ta[j], #[trigger] ta[i]) by {
            assert(ta[i] == a[i + 1] && ta[j] == a[j + 1]);
        }
        assert forall|i: int, j: int| 0 <= i < j < tb.len() implies !room_lt(#[trigger] tb[j], #[trigger] tb[i]) by {
            assert(tb[i] == b[i + 1] && tb[j] == b[j + 1]);
        }
        law_sorted_rooms_unique(ta, tb);
        assert forall|i: int| 0 <= i < a.len() implies a[i] == b[i] by {
            if i > 0 {
                assert(a[i] == ta[i - 1] && b[i] == tb[i - 1]);
            }
        }
        assert(a =~= b);
    }
}

/// Filtering a list without repeats gives a list without repeats that holds
/// exactly the items that pass.
pub proof fn lemma_filter_distinct<A>(s: Seq<A>, p: spec_fn(A) -> bool)
    requires
        s.no_duplicates(),
    ensures
        s.filter(p).no_duplicates(),
        forall|x: A| #[trigger] s.filter(p).contains(x) <==> s.contains(x) && p(x),
    decreases s.len(),
{
    reveal(Seq::filter);
    if s.len() > 0 {
        let init = s.drop_last();
        assert(init.no_duplicates()) by {
            assert forall|i: int, j: int| 0 <= i < init.len() && 0 <= j < init.len() && i != j implies init[i] != init[j] by {
                assert(init[i] == s[i] && init[j] == s[j]);
            }
        }
        lemma_filter_distinct(init, p);
        let f = init.filter(p);
        assert(!init.contains(s.last())) by {
            if init.contains(s.last()) {
                let k = choose|k: int| 0 <= k < init.len() && init[k] == s.last();
                assert(s[k] == s[s.len() - 1]);
            }
        }
        assert forall|x: A| #[trigger] s.filter(p).contains(x) <==> s.contains(x) && p(x) by {
            if s.contains(x) && x != s.last() {
                let k = choose|k: int| 0 <= k < s.len() && s[k] == x;
                assert(init[k] == x);
            }
            if init.contains(x) {
                let k = choose|k: int| 0 <= k < init.len() && init[k] == x;
                assert(s[k] == x);
            }
            if p(s.last()) {
                let g = f.push(s.last());
                if f.contains(x) {
                    let k = choose|k: int| 0 <= k < f.len() && f[k] == x;
                    assert(g[k] == x);
                }
                if g.contains(x) && x != s.last() {
                    let k = choose|k: int| 0 <= k < g.len() && g[k] == x;
                    assert(f[k] == x);
                }
                assert(g[g.len() - 1] == s.last());
            }
            assert(s[s.len() - 1] == s.last());
        }
        if p(s.last()) {
            let g = f.push(s.last());
            assert forall|i: int, j: int| 0 <= i < g.len() && 0 <= j < g.len() && i != j implies g[i] != g[j] by {
                if i < f.len() && j < f.len() {
                    assert(g[i] == f[i] && g[j] == f[j]);
                } else if i < f.len() {
                    assert(g[i] == f[i]);
                    assert(f.contains(f[i]));
                } else {
                    assert(g[j] == f[j]);
                    assert(f.contains(f[j]));
                }
            }
        }
    }
}

impl Rooms {
    /// The number of players in room `room`: the peers whose room it is,
    /// and this client where it is the active room.
    pub fn peer_count(&self, room: &StableId) -> (r: usize)
        requires
            self.wf(),
            self.peer_set().peers_view().dom().len() < usize::MAX,
        ensures
            r == players_in(self.peer_set().peers_view(), self.active(), *room),
    {
        let ids = self.peers.ids();
        let ghost pv = self.peers.peers_view();
        let ghost pred = |p: PeerId| pv.contains_key(p) && prop(pv[p].props, Key::Room).as_stable_id() == *room;
        let mut count: usize = 0;
        let mut i: usize = 0;
        proof {
            reveal(Seq::filter);
            assert(ids@.take(0) =~= Seq::<PeerId>::empty());
        }
        while i < ids.len()
            invariant
                0 <= i <= ids@.len(),
                self.wf(),
                pv == self.peers.peers_view(),
                pred == (|p: PeerId| pv.contains_key(p) && prop(pv[p].props, Key::Room).as_stable_id() == *room),
                forall|k: PeerId| #[trigger] ids@.contains(k) <==> pv.contains_key(k),
                count == ids@.take(i as int).filter(pred).len(),
                count <= i,
            decreases ids@.len() - i,
        {
            let id = ids[i];
            proof {
                assert(ids@.contains(ids@[i as int]));
                assert(ids@.take(i + 1).drop_last() =~= ids@.take(i as int));
                assert(ids@.take(i + 1).last() == id);
                reveal(Seq::filter);
            }
            match self.peers.get(id) {
                Some(peer) => {
                    if peer.props.get_stable_id(Key::Room).same(room) {
                        count = count + 1;
                    }
                },
                None => {},
            }
            i = i + 1;
        }
        proof {
            assert(ids@.take(i as int) =~= ids@);
            assert(ids@.no_duplicates()) by {
                assert forall|a: int, b: int| 0 <= a < ids@.len() && 0 <= b < ids@.len() && a != b implies ids@[a] != ids@[b] by {
                    if a > b {
                        assert(ids@[b] != ids@[a]);
                    }
                }
            }
            lemma_filter_distinct(ids@, pred);
            let f = ids@.filter(pred);
            f.unique_seq_to_set();
            assert(f.to_set() =~= peers_in(pv, *room));
            ids@.unique_seq_to_set();
            assert(ids@.to_set() =~= pv.dom());
        }
        if self.active_room.same(room) {
            count + 1
        } else {
            count
        }
    }

    /// The number of players in no room.
    pub fn no_room_count(&self) -> (r: usize)
        requires
            self.wf(),
            self.peer_set().peers_view().dom().len() < usize::MAX,
        ensures
            r == players_in(self.peer_set().peers_view(), self.active(), zero_stable_id()),
    {
        self.peer_count(&StableId::zero())
    }

    /// Whether this client owns room `room`.
    pub fn is_local(&self, room: &Room) -> (r: bool)
        ensures
            r == (room.id.public_key == self.peer_set().own_key()),
    {
        room.id.public_key.same(&self.peers.public_key())
    }

    /// Who owns room `room`: this client, a known peer shown by its name,
    /// or nobody known.
    pub fn owner(&self, room: &Room) -> (r: Owner)
        requires
            self.wf(),
        ensures
            ({
                let own = self.peer_set().own_key();
                let keys = self.peer_set().keys_view();
                let peers = self.peer_set().peers_view();
                let k = room.id.public_key;
                if k == own {
                    r is You
                } else if keys.contains_key(k) && peers.contains_key(keys[k]) {
                    r matches Owner::Peer(name) && name@ == crate::peers::spec_display(peers[keys[k]])
                } else {
                    r is Unknown
                }
            }),
    {
        if self.is_local(room) {
            return Owner::You;
        }
        match self.peers.by_public_key(&room.id.public_key) {
            Some(peer) => Owner::Peer(peer.display()),
            None => Owner::Unknown,
        }
    }

    /// The identifier, in this session, of room `room`, by which it is
    /// opened or removed.
    pub fn room_target(&self, room: &Room) -> (r: RemoteId)
        requires
            self.wf(),
        ensures
            r == crate::peers::spec_to_remote(
                self.peer_set().own_key(),
                self.peer_set().keys_view(),
                room.id,
            ),
    {
        self.peers.to_remote_id(&room.id)
    }
}

/// The properties of a room that this client creates: its name.
pub fn new_room_props() -> (r: Properties)
    ensures
        r.wf(),
        r@ == Map::<Key, ValueView>::empty().insert(Key::Name, ValueView::Text("New Room"@)),
{
    let mut props = Properties::new();
    props.insert(Key::Name, Value::Text("New Room".to_owned()));
    props
}

} // verus!
