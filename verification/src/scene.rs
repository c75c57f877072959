use vstd::prelude::*;

use crate::ids::{zero_id, zero_stable_id, PeerId, PublicKey, RemoteId, StableId};
use crate::objects::{chain_ends, chain_locked, reaches_end, spec_new_object, spec_update, Object, ObjectView, ObjectsRef};
use crate::order::{
    added_key, entries_after, inserted, lemma_added_key_push, mirrors, order_after_update, ordered,
    unchanged, OrderRef,
};
use crate::peers::{insert_maps, remove_maps, PeerView, Peers};
use crate::rooms::peer_view_of;
use crate::values::{Key, RemoteObject, RemotePeer, Value};

verus! {

/// The order lists only objects that are not rooms, each at its own group
/// and sort bytes, and mirrors them. (An object that had no sort key when it
/// was created is not ordered.)
pub open spec fn in_step(objs: Map<RemoteId, ObjectView>, order: OrderRef) -> bool {
    &&& forall|id: RemoteId| #[trigger]
        order.entries().contains_key(id) ==> objs.contains_key(id) && !(objs[id].kind is Room)
    &&& forall|id: RemoteId| #[trigger]
        order.entries().contains_key(id) ==> order.entries()[id] == (objs[id].group, objs[id].sort)
    &&& mirrors(order)
}

/// `o1` is `o0` cut down to the peers `keep` accepts: an entry stays where
/// its object's peer is accepted, and a child stays in its group where both
/// the group's peer and the child's are accepted.
pub open spec fn order_kept(o0: OrderRef, o1: OrderRef, keep: spec_fn(PeerId) -> bool) -> bool {
    &&& forall|k: RemoteId| #[trigger]
        o1.entries().contains_key(k) <==> o0.entries().contains_key(k) && keep(k.peer_id)
    &&& forall|k: RemoteId| #[trigger]
        o1.entries().contains_key(k) ==> o1.entries()[k] == o0.entries()[k]
    &&& forall|g: RemoteId, x: (Seq<u8>, RemoteId)| #[trigger]
        o1.child_set(g).contains(x) <==> o0.child_set(g).contains(x) && keep(g.peer_id) && keep(
            x.1.peer_id,
        )
}

/// Every object is stored under its own identifier and sits in a group of
/// its own peer.
pub open spec fn own_groups(objs: Map<RemoteId, ObjectView>) -> bool {
    forall|id: RemoteId| #[trigger]
        objs.contains_key(id) ==> objs[id].id == id && objs[id].group.peer_id == id.peer_id
}

/// The selection, the Mumble source, whether it follows the selection and
/// the user's name are the same in `a` and `b`.
pub open spec fn same_choices(a: Scene, b: Scene) -> bool {
    &&& a.selected_of() == b.selected_of()
    &&& a.mumble_of() == b.mumble_of()
    &&& a.follow_of() == b.follow_of()
    &&& a.name_of() == b.name_of()
}

/// The Mumble source after object `id` is selected where `sel` was: where
/// the source follows the selection and the selection changes, it becomes
/// `id` where that is no object or a token.
pub open spec fn mumble_after_select(
    mumble: RemoteId,
    follow: bool,
    objs: Map<RemoteId, ObjectView>,
    sel: RemoteId,
    id: RemoteId,
) -> RemoteId {
    if sel == id || !follow || mumble == id || (id != zero_id() && !(objs.contains_key(id)
        && objs[id].kind is Token)) {
        mumble
    } else {
        id
    }
}

/// Selecting moves the Mumble source exactly when the source follows the
/// selection, the selection changes, the source is not already the new
/// object, and the new object is nothing (the zero id) or a known token;
/// it then becomes the new object, and otherwise stays.
pub proof fn law_mumble_after_select(
    mumble: RemoteId,
    follow: bool,
    objs: Map<RemoteId, ObjectView>,
    sel: RemoteId,
    id: RemoteId,
)
    ensures
        mumble_after_select(mumble, follow, objs, sel, id) == mumble || mumble_after_select(
            mumble,
            follow,
            objs,
            sel,
            id,
        ) == id,
        mumble_after_select(mumble, follow, objs, sel, id) != mumble <==> follow && sel != id
            && mumble != id && (id == zero_id() || (objs.contains_key(id) && objs[id].kind is Token)),
{
}

/// The objects of the map after those of peer `peer` described by `objs`
/// were added in turn; objects of a type this client does not handle are
/// skipped.
pub open spec fn objects_added(
    m: Map<RemoteId, ObjectView>,
    peer: PeerId,
    objs: Seq<RemoteObject>,
) -> Map<RemoteId, ObjectView>
    decreases objs.len(),
{
    if objs.len() == 0 {
        m
    } else {
        let m2 = objects_added(m, peer, objs.drop_last());
        let o = objs.last();
        match spec_new_object(peer, o.id, o.ty, o.props@) {
            Some(v) => m2.insert(v.id, v),
            None => m2,
        }
    }
}

/// The objects that peer `peer`'s new objects `objs` make, in turn, where
/// this client handles their type.
pub open spec fn made_objects(peer: PeerId, objs: Seq<RemoteObject>) -> Seq<ObjectView>
    decreases objs.len(),
{
    if objs.len() == 0 {
        Seq::empty()
    } else {
        let rest = made_objects(peer, objs.drop_last());
        let o = objs.last();
        match spec_new_object(peer, o.id, o.ty, o.props@) {
            Some(v) => rest.push(v),
            None => rest,
        }
    }
}

/// A dialog over the map, for one object.
#[derive(Debug, PartialEq, Clone, Copy)]
pub enum Dialog {
    /// Offers to unlock a locked object before anything else.
    Unlock(RemoteId),
    /// The object's settings.
    Settings(RemoteId),
    /// Asks to confirm the object's removal.
    Remove(RemoteId),
}

/// What the map knows of a session: its objects, their order, the peers,
/// and the room this client is in.
pub struct Scene {
    objects: ObjectsRef,
    order: OrderRef,
    peers: Peers,
    room: StableId,
    selected: RemoteId,
    mumble_object: RemoteId,
    mumble_follow: bool,
    name: String,
}

impl Scene {
    /// The objects, by identifier.
    pub closed spec fn objects_view(&self) -> Map<RemoteId, ObjectView> {
        self.objects@
    }

    /// The order of the objects.
    pub closed spec fn order_of(&self) -> OrderRef {
        self.order
    }

    /// The peers of the session.
    pub closed spec fn peer_set(&self) -> Peers {
        self.peers
    }

    /// The room this client is in.
    pub closed spec fn room_of(&self) -> StableId {
        self.room
    }

    /// The selected object; the zero id for none.
    pub closed spec fn selected_of(&self) -> RemoteId {
        self.selected
    }

    /// The object that is the source of Mumble's positional audio; the zero
    /// id for none.
    pub closed spec fn mumble_of(&self) -> RemoteId {
        self.mumble_object
    }

    /// Whether the Mumble source follows the selection.
    pub closed spec fn follow_of(&self) -> bool {
        self.mumble_follow
    }

    /// The name this client goes by; empty where none is set.
    pub closed spec fn name_of(&self) -> Seq<char> {
        self.name@
    }

    /// The parts are well formed and every object sits in a group of its
    /// own peer.
    pub closed spec fn wf(&self) -> bool {
        &&& self.objects.wf()
        &&& self.order.wf()
        &&& self.peers.wf()
        &&& own_groups(self.objects@)
    }

    /// The order lists only objects that are not rooms, at their places.
    pub open spec fn consistent(&self) -> bool {
        in_step(self.objects_view(), self.order_of())
    }

    pub fn new() -> (r: Scene)
        ensures
            r.wf(),
            r.consistent(),
            r.objects_view() == Map::<RemoteId, ObjectView>::empty(),
            r.peer_set().peers_view() == Map::<PeerId, PeerView>::empty(),
            r.room_of() == zero_stable_id(),
            r.selected_of() == zero_id(),
            r.mumble_of() == zero_id(),
            !r.follow_of(),
            r.name_of() == Seq::<char>::empty(),
    {
        let r = Scene {
            objects: ObjectsRef::new(),
            order: OrderRef::new(),
            peers: Peers::new(),
            room: StableId::zero(),
            selected: RemoteId::zero(),
            mumble_object: RemoteId::zero(),
            mumble_follow: false,
            name: String::new(),
        };
        proof {
            assert forall|g: RemoteId, k| #[trigger] r.order.child_set(g).contains(k) implies false by {
                assert(r.order.child_seq(g) == Seq::<(Seq<u8>, RemoteId)>::empty());
            }
        }
        r
    }

    /// The objects.
    pub fn objects(&self) -> (r: &ObjectsRef)
        ensures
            r@ == self.objects_view(),
            self.wf() ==> r.wf(),
    {
        &self.objects
    }

    /// The order of the objects.
    pub fn order(&self) -> (r: &OrderRef)
        ensures
            *r == self.order_of(),
            self.wf() ==> r.wf(),
    {
        &self.order
    }

    /// The peers.
    pub fn peers(&self) -> (r: &Peers)
        ensures
            *r == self.peer_set(),
            self.wf() ==> r.wf(),
    {
        &self.peers
    }

    /// The selected object.
    pub fn selected(&self) -> (r: RemoteId)
        ensures
            r == self.selected_of(),
    {
        self.selected
    }

    /// The Mumble source.
    pub fn mumble_object(&self) -> (r: RemoteId)
        ensures
            r == self.mumble_of(),
    {
        self.mumble_object
    }

    /// Whether the Mumble source follows the selection.
    pub fn mumble_follow(&self) -> (r: bool)
        ensures
            r == self.follow_of(),
    {
        self.mumble_follow
    }

    /// The room this client is in.
    pub fn room(&self) -> (r: StableId)
        ensures
            r == self.room_of(),
    {
        self.room
    }

    /// An object was created: where this client handles its type, it is
    /// added to the objects, and to the order where it is no room and has a
    /// sort key. Returns whether it was added.
    pub fn object_created(&mut self, id: RemoteId, object: &RemoteObject) -> (r: bool)
        requires
            old(self).wf(),
            object.props.wf(),
        ensures
            same_choices(*old(self), *final(self)),
            final(self).wf(),
            final(self).peer_set() == old(self).peer_set(),
            final(self).room_of() == old(self).room_of(),
            r == spec_new_object(id.peer_id, object.id, object.ty, object.props@) is Some,
            final(self).objects_view() == match spec_new_object(
                id.peer_id,
                object.id,
                object.ty,
                object.props@,
            ) {
                Some(v) => old(self).objects_view().insert(v.id, v),
                None => old(self).objects_view(),
            },
            match spec_new_object(id.peer_id, object.id, object.ty, object.props@) {
                Some(v) => inserted(old(self).order_of(), final(self).order_of(), v),
                None => unchanged(old(self).order_of(), final(self).order_of()),
            },
            old(self).consistent() && (spec_new_object(
                id.peer_id,
                object.id,
                object.ty,
                object.props@,
            ) matches Some(v) ==> !old(self).objects_view().contains_key(v.id))
                ==> final(self).consistent(),
    {
        match Object::new(id.peer_id, object) {
            Some(o) => {
                self.order.insert(&o);
                self.objects.insert(o);
                true
            },
            None => false,
        }
    }

    /// An object was removed: it leaves the objects and the order, and where
    /// it was selected, nothing is. Echoes of this client's own changes are
    /// ignored. Returns whether it was known, and the Mumble source to
    /// announce where the selection moved it.
    pub fn object_removed(&mut self, from_self: bool, id: RemoteId) -> (r: (bool, Option<RemoteId>))
        requires
            old(self).wf(),
        ensures
            final(self).wf(),
            final(self).peer_set() == old(self).peer_set(),
            final(self).room_of() == old(self).room_of(),
            final(self).follow_of() == old(self).follow_of(),
            r.0 == (!from_self && old(self).objects_view().contains_key(id)),
            final(self).objects_view() == if from_self {
                old(self).objects_view()
            } else {
                old(self).objects_view().remove(id)
            },
            r.0 && old(self).selected_of() == id ==> {
                &&& final(self).selected_of() == zero_id()
                &&& final(self).mumble_of() == mumble_after_select(
                    old(self).mumble_of(),
                    old(self).follow_of(),
                    final(self).objects_view(),
                    id,
                    zero_id(),
                )
                &&& r.1 == if final(self).mumble_of() != old(self).mumble_of() {
                    Some(zero_id())
                } else {
                    None
                }
            },
            !(r.0 && old(self).selected_of() == id) ==> same_choices(*old(self), *final(self))
                && r.1 is None,
            old(self).consistent() ==> final(self).consistent(),
    {
        if from_self {
            return (false, None);
        }
        match self.objects.remove(id) {
            Some(_) => {
                self.order.remove(id);
                if self.selected.same(&id) {
                    let (_, mumble) = self.select(RemoteId::zero());
                    (true, mumble)
                } else {
                    (true, None)
                }
            },
            None => (false, None),
        }
    }

    /// Selects object `id`. Where the Mumble source follows the selection,
    /// it moves to `id` where that is no object or a token. Returns whether
    /// the selection changed, and the Mumble source to announce where it
    /// moved.
    pub fn select(&mut self, id: RemoteId) -> (r: (bool, Option<RemoteId>))
        requires
            old(self).wf(),
        ensures
            final(self).wf(),
            final(self).objects_view() == old(self).objects_view(),
            final(self).order_of() == old(self).order_of(),
            final(self).peer_set() == old(self).peer_set(),
            final(self).room_of() == old(self).room_of(),
            final(self).follow_of() == old(self).follow_of(),
            final(self).selected_of() == id,
            r.0 == (old(self).selected_of() != id),
            final(self).mumble_of() == mumble_after_select(
                old(self).mumble_of(),
                old(self).follow_of(),
                old(self).objects_view(),
                old(self).selected_of(),
                id,
            ),
            r.1 == if final(self).mumble_of() != old(self).mumble_of() {
                Some(id)
            } else {
                None
            },
            old(self).consistent() ==> final(self).consistent(),
    {
        if self.selected.same(&id) {
            return (false, None);
        }
        self.selected = id;
        if !self.mumble_follow || self.mumble_object.same(&id) {
            return (true, None);
        }
        if !id.is_root() && !self.objects.is_interactive(id) {
            return (true, None);
        }
        self.mumble_object = id;
        (true, Some(id))
    }

    /// A property of an object changed: the object takes the value, and a
    /// new group or sort moves it in the order. Echoes of this client's own
    /// changes are ignored. Returns whether the object changed.
    pub fn object_updated(&mut self, from_self: bool, id: RemoteId, key: Key, value: &Value) -> (r: bool)
        requires
            old(self).wf(),
        ensures
            same_choices(*old(self), *final(self)),
            final(self).wf(),
            final(self).peer_set() == old(self).peer_set(),
            final(self).room_of() == old(self).room_of(),
            from_self || !old(self).objects_view().contains_key(id) ==> !r && final(self).objects_view()
                == old(self).objects_view() && final(self).order_of() == old(self).order_of(),
            !from_self && old(self).objects_view().contains_key(id) ==> {
                let o = old(self).objects_view()[id];
                &&& final(self).objects_view() == old(self).objects_view().insert(
                    id,
                    spec_update(o, key, value@),
                )
                &&& order_after_update(old(self).order_of(), final(self).order_of(), id, key, value@)
                &&& (old(self).consistent() ==> r == (spec_update(o, key, value@) != o))
            },
            old(self).consistent() ==> final(self).consistent(),
    {
        if from_self || !self.objects.get(id).is_some() {
            return false;
        }
        let moved = self.order.update(id, key, value);
        let changed = self.objects.update(id, key, value);
        proof {
            if in_step(old(self).objects@, old(self).order) {
                let o = old(self).objects@[id];
                let n = spec_update(o, key, value@);
                assert(n.kind is Room <==> o.kind is Room);
                assert forall|x: RemoteId| #[trigger]
                    self.order.entries().contains_key(x) implies self.order.entries()[x] == (
                        self.objects@[x].group,
                        self.objects@[x].sort,
                    ) by {
                    if x != id && self.order.entries().contains_key(x) {
                        assert(old(self).order.entries().contains_key(x));
                    }
                }
                if moved {
                    assert(n != o);
                }
            }
            let o = old(self).objects@[id];
            let n = spec_update(o, key, value@);
            if n == o {
                assert(old(self).objects@.insert(id, o) =~= old(self).objects@);
            } else {
                assert(self.objects@[id] != old(self).objects@[id]);
            }
        }
        moved || changed
    }

    /// A peer connected. Always asks for a redraw.
    pub fn peer_connected(&mut self, peer: RemotePeer) -> (r: bool)
        requires
            old(self).wf(),
            peer.props.wf(),
        ensures
            same_choices(*old(self), *final(self)),
            r,
            final(self).wf(),
            final(self).objects_view() == old(self).objects_view(),
            final(self).order_of() == old(self).order_of(),
            final(self).room_of() == old(self).room_of(),
            final(self).peer_set().own_key() == old(self).peer_set().own_key(),
            (final(self).peer_set().peers_view(), final(self).peer_set().keys_view()) == insert_maps(
                old(self).peer_set().peers_view(),
                old(self).peer_set().keys_view(),
                peer_view_of(peer, old(self).room_of()),
            ),
    {
        self.peers.insert(peer, &self.room);
        true
    }

    /// A property of a peer changed. Returns whether the peer is known.
    pub fn peer_update(&mut self, peer_id: PeerId, key: Key, value: Value) -> (r: bool)
        requires
            old(self).wf(),
        ensures
            same_choices(*old(self), *final(self)),
            final(self).wf(),
            final(self).objects_view() == old(self).objects_view(),
            final(self).order_of() == old(self).order_of(),
            final(self).room_of() == old(self).room_of(),
            final(self).peer_set().own_key() == old(self).peer_set().own_key(),
            final(self).peer_set().keys_view() == old(self).peer_set().keys_view(),
            r == old(self).peer_set().peers_view().contains_key(peer_id),
            r ==> final(self).peer_set().peers_view() == old(self).peer_set().peers_view().insert(
                peer_id,
                PeerView {
                    props: old(self).peer_set().peers_view()[peer_id].props.insert(key, value@),
                    in_room: if key == Key::Room {
                        value@.as_stable_id() == old(self).room_of()
                    } else {
                        old(self).peer_set().peers_view()[peer_id].in_room
                    },
                    ..old(self).peer_set().peers_view()[peer_id]
                },
            ),
            !r ==> final(self).peer_set().peers_view() == old(self).peer_set().peers_view(),
    {
        self.peers.update_peer(peer_id, key, value, &self.room)
    }

    /// The server sent this client's public key. Always asks for a redraw.
    pub fn public_key_update(&mut self, key: PublicKey) -> (r: bool)
        requires
            old(self).wf(),
        ensures
            same_choices(*old(self), *final(self)),
            r,
            final(self).wf(),
            final(self).objects_view() == old(self).objects_view(),
            final(self).order_of() == old(self).order_of(),
            final(self).room_of() == old(self).room_of(),
            final(self).peer_set().own_key() == key,
            final(self).peer_set().peers_view() == old(self).peer_set().peers_view(),
            final(self).peer_set().keys_view() == old(self).peer_set().keys_view(),
    {
        self.peers.set_public_key(key);
        true
    }
}

/// Dropping objects and order entries by peer keeps them in step, where the
/// root group's peer is kept and each non-room object stays exactly where
/// its peer is kept.
proof fn lemma_retained_in_step(
    objs0: Map<RemoteId, ObjectView>,
    objs1: Map<RemoteId, ObjectView>,
    o0: OrderRef,
    o1: OrderRef,
    kp: spec_fn(PeerId) -> bool,
)
    requires
        in_step(objs0, o0),
        own_groups(objs0),
        kp(PeerId(0)),
        forall|k: RemoteId| #[trigger]
            objs1.contains_key(k) ==> objs0.contains_key(k) && objs1[k] == objs0[k],
        forall|k: RemoteId| #[trigger]
            objs0.contains_key(k) && !(objs0[k].kind is Room) ==> (objs1.contains_key(k) <==> kp(
                k.peer_id,
            )),
        forall|g: RemoteId, x: (Seq<u8>, RemoteId)| #[trigger]
            o1.child_set(g).contains(x) ==> o0.child_set(g).contains(x) && kp(g.peer_id) && kp(
                x.1.peer_id,
            ),
        forall|g: RemoteId, x: (Seq<u8>, RemoteId)| #[trigger]
            o0.child_set(g).contains(x) && kp(g.peer_id) && kp(x.1.peer_id) ==> o1.child_set(
                g,
            ).contains(x),
        forall|k: RemoteId| #[trigger]
            o1.entries().contains_key(k) ==> o0.entries().contains_key(k) && o1.entries()[k]
                == o0.entries()[k],
        forall|k: RemoteId| #[trigger]
            o0.entries().contains_key(k) ==> (o1.entries().contains_key(k) <==> kp(k.peer_id)),
    ensures
        in_step(objs1, o1),
{
    assert forall|id: RemoteId| #[trigger]
        o1.entries().contains_key(id) implies objs1.contains_key(id) && !(objs1[id].kind is Room) by {
        assert(o0.entries().contains_key(id));
        assert(objs0.contains_key(id));
    }
    assert forall|id: RemoteId| #[trigger]
        o1.entries().contains_key(id) implies o1.entries()[id] == (objs1[id].group, objs1[id].sort) by {
        assert(o0.entries().contains_key(id));
    }
    assert forall|id: RemoteId| #[trigger]
        o1.entries().contains_key(id) implies o1.child_set(crate::ids::spec_as_group(o1.entries()[id].0)).contains(
            (o1.entries()[id].1, id),
        ) by {
        assert(o0.entries().contains_key(id));
        let g = crate::ids::spec_as_group(o0.entries()[id].0);
        assert(o0.child_set(g).contains((o0.entries()[id].1, id)));
        assert(objs0.contains_key(id));
        assert(objs0[id].group.peer_id == id.peer_id);
        assert(kp(id.peer_id));
        assert(kp(g.peer_id));
    }
    assert forall|g: RemoteId, k: (Seq<u8>, RemoteId)| #[trigger]
        o1.child_set(g).contains(k) implies o1.entries().contains_key(k.1) && crate::ids::spec_as_group(
            o1.entries()[k.1].0,
        ) == g && o1.entries()[k.1].1 == k.0 by {
        assert(o0.child_set(g).contains(k));
        assert(o0.entries().contains_key(k.1));
    }
}

impl Scene {
    /// The link to the server was lost: only this client's own objects and
    /// their order stay, and the peers are forgotten. Always asks for a
    /// redraw.
    pub fn remote_lost(&mut self) -> (r: bool)
        requires
            old(self).wf(),
        ensures
            same_choices(*old(self), *final(self)),
            r,
            final(self).wf(),
            final(self).room_of() == old(self).room_of(),
            final(self).objects_view() == old(self).objects_view().filter_keys(
                |k: RemoteId| k.peer_id.0 == 0,
            ),
            final(self).peer_set().peers_view() == Map::<PeerId, PeerView>::empty(),
            final(self).peer_set().keys_view() == Map::<PublicKey, PeerId>::empty(),
            final(self).peer_set().own_key() == old(self).peer_set().own_key(),
            order_kept(old(self).order_of(), final(self).order_of(), |p: PeerId| p.0 == 0),
            old(self).consistent() ==> final(self).consistent(),
    {
        let keep_object = |id: RemoteId, global: bool| -> (b: bool)
            ensures
                b == (id.peer_id.0 == 0),
            { id.peer_id.0 == 0 };
        self.objects.retain(&keep_object);
        let keep_peer = |p: PeerId| -> (b: bool)
            ensures
                b == (p.0 == 0),
            { p.0 == 0 };
        self.order.retain(&keep_peer);
        self.peers.clear();
        proof {
            let kp = |p: PeerId| p.0 == 0;
            assert(self.objects@ =~= old(self).objects@.filter_keys(|k: RemoteId| k.peer_id.0 == 0));
            if in_step(old(self).objects@, old(self).order) {
                lemma_retained_in_step(old(self).objects@, self.objects@, old(self).order, self.order, kp);
            }
        }
        true
    }

    /// A peer left this client's room: its objects leave, but for the
    /// rooms it owns. Always asks for a redraw.
    pub fn peer_leave(&mut self, peer_id: PeerId) -> (r: bool)
        requires
            old(self).wf(),
        ensures
            same_choices(*old(self), *final(self)),
            r,
            final(self).wf(),
            final(self).room_of() == old(self).room_of(),
            final(self).peer_set() == old(self).peer_set(),
            final(self).objects_view() == old(self).objects_view().filter_keys(
                |k: RemoteId| old(self).objects_view()[k].kind is Room || k.peer_id.0 != peer_id.0,
            ),
            order_kept(old(self).order_of(), final(self).order_of(), |p: PeerId| p.0 != peer_id.0),
            old(self).consistent() && peer_id.0 != 0 ==> final(self).consistent(),
    {
        let keep_object = |id: RemoteId, global: bool| -> (b: bool)
            ensures
                b == (global || id.peer_id.0 != peer_id.0),
            { global || id.peer_id.0 != peer_id.0 };
        self.objects.retain(&keep_object);
        let keep_peer = |p: PeerId| -> (b: bool)
            ensures
                b == (p.0 != peer_id.0),
            { p.0 != peer_id.0 };
        self.order.retain(&keep_peer);
        proof {
            let kp = |p: PeerId| p.0 != peer_id.0;
            assert(self.objects@ =~= old(self).objects@.filter_keys(
                |k: RemoteId| old(self).objects@[k].kind is Room || k.peer_id.0 != peer_id.0,
            ));
            if in_step(old(self).objects@, old(self).order) && peer_id.0 != 0 {
                lemma_retained_in_step(old(self).objects@, self.objects@, old(self).order, self.order, kp);
            }
        }
        true
    }

    /// A peer disconnected: all its objects leave and it is forgotten.
    /// Always asks for a redraw.
    pub fn peer_disconnect(&mut self, peer_id: PeerId) -> (r: bool)
        requires
            old(self).wf(),
        ensures
            same_choices(*old(self), *final(self)),
            r,
            final(self).wf(),
            final(self).room_of() == old(self).room_of(),
            final(self).objects_view() == old(self).objects_view().filter_keys(
                |k: RemoteId| k.peer_id.0 != peer_id.0,
            ),
            final(self).peer_set().own_key() == old(self).peer_set().own_key(),
            (final(self).peer_set().peers_view(), final(self).peer_set().keys_view()) == remove_maps(
                old(self).peer_set().peers_view(),
                old(self).peer_set().keys_view(),
                peer_id,
            ),
            order_kept(old(self).order_of(), final(self).order_of(), |p: PeerId| p.0 != peer_id.0),
            old(self).consistent() && peer_id.0 != 0 ==> final(self).consistent(),
    {
        let keep_object = |id: RemoteId, global: bool| -> (b: bool)
            ensures
                b == (id.peer_id.0 != peer_id.0),
            { id.peer_id.0 != peer_id.0 };
        self.objects.retain(&keep_object);
        let keep_peer = |p: PeerId| -> (b: bool)
            ensures
                b == (p.0 != peer_id.0),
            { p.0 != peer_id.0 };
        self.order.retain(&keep_peer);
        self.peers.remove_peer(peer_id);
        proof {
            let kp = |p: PeerId| p.0 != peer_id.0;
            assert(self.objects@ =~= old(self).objects@.filter_keys(|k: RemoteId| k.peer_id.0 != peer_id.0));
            if in_step(old(self).objects@, old(self).order) && peer_id.0 != 0 {
                lemma_retained_in_step(old(self).objects@, self.objects@, old(self).order, self.order, kp);
            }
        }
        true
    }
}

/// The objects that the new objects `objs` of peer `peer` make, where this
/// client handles their type, have identifiers of their own: none is known
/// yet and no two share one.
pub open spec fn fresh_objects(m: Map<RemoteId, ObjectView>, peer: PeerId, objs: Seq<RemoteObject>) -> bool {
    &&& forall|i: int| #![trigger objs[i]]
        0 <= i < objs.len() && spec_new_object(peer, objs[i].id, objs[i].ty, objs[i].props@) is Some
            ==> !m.contains_key(RemoteId { peer_id: peer, id: objs[i].id })
    &&& forall|i: int, j: int| #![trigger objs[i], objs[j]]
        0 <= i < j < objs.len() && spec_new_object(peer, objs[i].id, objs[i].ty, objs[i].props@) is Some
            && spec_new_object(peer, objs[j].id, objs[j].ty, objs[j].props@) is Some ==> objs[i].id != objs[j].id
}

/// The objects added by `objects_added` are those of `m` and those made
/// from `objs`.
proof fn lemma_objects_added_keys(m: Map<RemoteId, ObjectView>, peer: PeerId, objs: Seq<RemoteObject>, x: RemoteId)
    requires
        objects_added(m, peer, objs).contains_key(x),
    ensures
        m.contains_key(x) || (exists|j: int|
            #![trigger objs[j]]
            0 <= j < objs.len() && spec_new_object(peer, objs[j].id, objs[j].ty, objs[j].props@) is Some
                && x == (RemoteId { peer_id: peer, id: objs[j].id })),
    decreases objs.len(),
{
    if objs.len() > 0 {
        let init = objs.drop_last();
        let o = objs.last();
        let m2 = objects_added(m, peer, init);
        match spec_new_object(peer, o.id, o.ty, o.props@) {
            Some(v) => {
                if x != v.id {
                    lemma_objects_added_keys(m, peer, init, x);
                    if !m.contains_key(x) {
                        let j = choose|j: int|
                            #![trigger init[j]]
                            0 <= j < init.len() && spec_new_object(peer, init[j].id, init[j].ty, init[j].props@) is Some
                                && x == RemoteId { peer_id: peer, id: init[j].id };
                        assert(objs[j] == init[j]);
                    }
                } else {
                    assert(objs[objs.len() - 1] == o);
                }
            },
            None => {
                lemma_objects_added_keys(m, peer, init, x);
                if !m.contains_key(x) {
                    let j = choose|j: int|
                        #![trigger init[j]]
                        0 <= j < init.len() && spec_new_object(peer, init[j].id, init[j].ty, init[j].props@) is Some
                            && x == RemoteId { peer_id: peer, id: init[j].id };
                    assert(objs[j] == init[j]);
                }
            },
        }
    }
}

impl Scene {
    /// The room of this client changed: every peer is told again whether it
    /// is in it. Returns whether the room changed.
    pub fn set_room(&mut self, room: StableId) -> (r: bool)
        requires
            old(self).wf(),
        ensures
            same_choices(*old(self), *final(self)),
            final(self).wf(),
            r == (room != old(self).room_of()),
            final(self).room_of() == room,
            final(self).objects_view() == old(self).objects_view(),
            final(self).order_of() == old(self).order_of(),
            final(self).peer_set().own_key() == old(self).peer_set().own_key(),
            final(self).peer_set().keys_view() == old(self).peer_set().keys_view(),
            !r ==> final(self).peer_set() == old(self).peer_set(),
            r ==> final(self).peer_set().peers_view().dom() == old(self).peer_set().peers_view().dom(),
            r ==> forall|id: PeerId| #[trigger]
                old(self).peer_set().peers_view().contains_key(id) ==> final(self).peer_set().peers_view()[id]
                    == (PeerView {
                    in_room: crate::values::prop(old(self).peer_set().peers_view()[id].props, Key::Room).as_stable_id()
                        == room,
                    ..old(self).peer_set().peers_view()[id]
                }),
            old(self).consistent() ==> final(self).consistent(),
    {
        if self.room.same(&room) {
            return false;
        }
        self.room = room;
        self.peers.update_rooms(&room);
        true
    }

    /// A peer joined this client's room with its objects: those of a type
    /// this client handles are added in turn. Always asks for a redraw.
    pub fn peer_join(&mut self, peer_id: PeerId, objects: Vec<RemoteObject>) -> (r: bool)
        requires
            old(self).wf(),
            forall|i: int| 0 <= i < objects@.len() ==> (#[trigger] objects@[i]).props.wf(),
        ensures
            same_choices(*old(self), *final(self)),
            r,
            final(self).wf(),
            final(self).peer_set() == old(self).peer_set(),
            final(self).room_of() == old(self).room_of(),
            final(self).objects_view() == objects_added(old(self).objects_view(), peer_id, objects@),
            final(self).order_of().entries() == entries_after(
                old(self).order_of().entries(),
                made_objects(peer_id, objects@),
            ),
            forall|g: RemoteId, x: (Seq<u8>, RemoteId)| #[trigger]
                final(self).order_of().child_set(g).contains(x) <==> old(self).order_of().child_set(
                    g,
                ).contains(x) || added_key(made_objects(peer_id, objects@), g, x),
            old(self).consistent() && fresh_objects(old(self).objects_view(), peer_id, objects@)
                ==> final(self).consistent(),
    {
        let ghost cond = in_step(old(self).objects@, old(self).order) && fresh_objects(
            old(self).objects@,
            peer_id,
            objects@,
        );
        let ghost all = objects@;
        let mut i: usize = 0;
        proof {
            assert(all.take(0) =~= Seq::<RemoteObject>::empty());
        }
        while i < objects.len()
            invariant
                0 <= i <= all.len(),
                all == objects@,
                self.wf(),
                self.peers == old(self).peers,
                self.room == old(self).room,
                same_choices(*old(self), *self),
                forall|j: int| 0 <= j < all.len() ==> (#[trigger] all[j]).props.wf(),
                self.objects@ == objects_added(old(self).objects@, peer_id, all.take(i as int)),
                self.order.entries() == entries_after(
                    old(self).order.entries(),
                    made_objects(peer_id, all.take(i as int)),
                ),
                forall|g: RemoteId, x: (Seq<u8>, RemoteId)| #[trigger]
                    self.order.child_set(g).contains(x) <==> old(self).order.child_set(g).contains(x)
                        || added_key(made_objects(peer_id, all.take(i as int)), g, x),
                cond == (in_step(old(self).objects@, old(self).order) && fresh_objects(
                    old(self).objects@,
                    peer_id,
                    all,
                )),
                cond ==> in_step(self.objects@, self.order),
            decreases all.len() - i,
        {
            let ghost before = self.objects@;
            let object = &objects[i];
            proof {
                assert(all.take(i + 1).drop_last() =~= all.take(i as int));
                assert(all.take(i + 1).last() == all[i as int]);
                if cond && spec_new_object(peer_id, object.id, object.ty, object.props@) is Some {
                    let x = RemoteId { peer_id: peer_id, id: object.id };
                    if before.contains_key(x) {
                        lemma_objects_added_keys(old(self).objects@, peer_id, all.take(i as int), x);
                        assert(!old(self).objects@.contains_key(x)) by {
                            assert(all[i as int] == *object);
                        }
                        let j = choose|j: int|
                            #![trigger all.take(i as int)[j]]
                            0 <= j < all.take(i as int).len() && spec_new_object(
                                peer_id,
                                all.take(i as int)[j].id,
                                all.take(i as int)[j].ty,
                                all.take(i as int)[j].props@,
                            ) is Some && x == RemoteId { peer_id: peer_id, id: all.take(i as int)[j].id };
                        assert(all.take(i as int)[j] == all[j]);
                        assert(all[i as int] == *object);
                        assert(all[j].id != all[i as int].id);
                    }
                }
            }
            let ghost ob = self.order;
            self.object_created(RemoteId::new(peer_id, object.id), object);
            proof {
                let made = made_objects(peer_id, all.take(i as int));
                match spec_new_object(peer_id, object.id, object.ty, object.props@) {
                    Some(v) => {
                        assert(made_objects(peer_id, all.take(i + 1)) == made.push(v));
                        assert(made.push(v).drop_last() =~= made);
                        assert forall|g: RemoteId, x: (Seq<u8>, RemoteId)| #[trigger]
                            self.order.child_set(g).contains(x) <==> old(self).order.child_set(g).contains(x)
                                || added_key(made.push(v), g, x) by {
                            lemma_added_key_push(made, v, g, x);
                        }
                    },
                    None => {
                        assert(made_objects(peer_id, all.take(i + 1)) == made);
                    },
                }
            }
            i = i + 1;
        }
        proof {
            assert(all.take(i as int) =~= all);
        }
        true
    }
}

/// The objects of the map after the objects `objs`, each given with the
/// peer that owns it, were added in turn.
pub open spec fn objects_added_from(
    m: Map<RemoteId, ObjectView>,
    objs: Seq<(PeerId, RemoteObject)>,
) -> Map<RemoteId, ObjectView>
    decreases objs.len(),
{
    if objs.len() == 0 {
        m
    } else {
        let m2 = objects_added_from(m, objs.drop_last());
        let (p, o) = objs.last();
        match spec_new_object(p, o.id, o.ty, o.props@) {
            Some(v) => m2.insert(v.id, v),
            None => m2,
        }
    }
}

/// The objects that the pairs `objs` of a peer and a new object make, in
/// turn, where this client handles their type.
pub open spec fn made_from(objs: Seq<(PeerId, RemoteObject)>) -> Seq<ObjectView>
    decreases objs.len(),
{
    if objs.len() == 0 {
        Seq::empty()
    } else {
        let rest = made_from(objs.drop_last());
        let (p, o) = objs.last();
        match spec_new_object(p, o.id, o.ty, o.props@) {
            Some(v) => rest.push(v),
            None => rest,
        }
    }
}

/// Where the objects of `m` named in `ks` that have a place sit.
pub open spec fn ordered_entries(m: Map<RemoteId, ObjectView>, ks: Seq<RemoteId>) -> Map<
    RemoteId,
    (RemoteId, Seq<u8>),
> {
    Map::new(
        |k: RemoteId| ks.contains(k) && m.contains_key(k) && ordered(m[k]),
        |k: RemoteId| (m[k].group, m[k].sort),
    )
}

/// Where the objects of `m` that have a place sit.
pub open spec fn placed_entries(m: Map<RemoteId, ObjectView>) -> Map<RemoteId, (RemoteId, Seq<u8>)> {
    Map::new(|k: RemoteId| m.contains_key(k) && ordered(m[k]), |k: RemoteId| (m[k].group, m[k].sort))
}

/// Whether `x` is the key in group `g` of an object of `m` that has a place.
pub open spec fn placed_key(m: Map<RemoteId, ObjectView>, g: RemoteId, x: (Seq<u8>, RemoteId)) -> bool {
    &&& m.contains_key(x.1)
    &&& ordered(m[x.1])
    &&& crate::ids::spec_as_group(m[x.1].group) == g
    &&& x.0 == m[x.1].sort
}

/// The objects that `objs` make, where this client handles their type,
/// have identifiers of their own.
pub open spec fn fresh_pairs(m: Map<RemoteId, ObjectView>, objs: Seq<(PeerId, RemoteObject)>) -> bool {
    &&& forall|i: int| #![trigger objs[i]]
        0 <= i < objs.len() && spec_new_object(objs[i].0, objs[i].1.id, objs[i].1.ty, objs[i].1.props@) is Some
            ==> !m.contains_key(RemoteId { peer_id: objs[i].0, id: objs[i].1.id })
    &&& forall|i: int, j: int| #![trigger objs[i], objs[j]]
        0 <= i < j < objs.len() && spec_new_object(objs[i].0, objs[i].1.id, objs[i].1.ty, objs[i].1.props@) is Some
            && spec_new_object(objs[j].0, objs[j].1.id, objs[j].1.ty, objs[j].1.props@) is Some
            ==> objs[i].0 != objs[j].0 || objs[i].1.id != objs[j].1.id
}

proof fn lemma_objects_added_from_keys(m: Map<RemoteId, ObjectView>, objs: Seq<(PeerId, RemoteObject)>, x: RemoteId)
    requires
        objects_added_from(m, objs).contains_key(x),
    ensures
        m.contains_key(x) || (exists|j: int|
            #![trigger objs[j]]
            0 <= j < objs.len() && spec_new_object(objs[j].0, objs[j].1.id, objs[j].1.ty, objs[j].1.props@) is Some
                && x == (RemoteId { peer_id: objs[j].0, id: objs[j].1.id })),
    decreases objs.len(),
{
    if objs.len() > 0 {
        let init = objs.drop_last();
        let (p, o) = objs.last();
        let hit = match spec_new_object(p, o.id, o.ty, o.props@) {
            Some(v) => x == v.id,
            None => false,
        };
        if hit {
            assert(objs[objs.len() - 1] == objs.last());
        } else {
            lemma_objects_added_from_keys(m, init, x);
            if !m.contains_key(x) {
                let j = choose|j: int|
                    #![trigger init[j]]
                    0 <= j < init.len() && spec_new_object(init[j].0, init[j].1.id, init[j].1.ty, init[j].1.props@) is Some
                        && x == (RemoteId { peer_id: init[j].0, id: init[j].1.id });
                assert(objs[j] == init[j]);
            }
        }
    }
}

impl Scene {
    /// The server sent the state of the map: this client's key and
    /// settings, its own objects, the peers and their objects. The objects
    /// are rebuilt and those with a place added to the order, which is kept.
    /// Always asks for a redraw.
    pub fn initialize(
        &mut self,
        public_key: PublicKey,
        config: &crate::values::Properties,
        local: Vec<RemoteObject>,
        peers: Vec<RemotePeer>,
        peer_objects: Vec<(PeerId, RemoteObject)>,
    ) -> (r: bool)
        requires
            old(self).wf(),
            config.wf(),
            forall|i: int| 0 <= i < local@.len() ==> (#[trigger] local@[i]).props.wf(),
            forall|i: int| 0 <= i < peers@.len() ==> (#[trigger] peers@[i]).props.wf(),
            forall|i: int| 0 <= i < peer_objects@.len() ==> (#[trigger] peer_objects@[i]).1.props.wf(),
        ensures
            r,
            final(self).wf(),
            final(self).peer_set().own_key() == public_key,
            final(self).room_of() == crate::values::prop(config@, Key::Room).as_stable_id(),
            final(self).mumble_of() == (RemoteId {
                peer_id: PeerId(0),
                id: crate::values::prop(config@, Key::MumbleObject).as_id(),
            }),
            final(self).follow_of() == crate::values::prop(config@, Key::MumbleFollow).as_bool(),
            final(self).name_of() == crate::values::prop(config@, Key::PeerName).as_str(),
            final(self).selected_of() == old(self).selected_of(),
            (final(self).peer_set().peers_view(), final(self).peer_set().keys_view())
                == crate::rooms::peers_added(
                (Map::<PeerId, PeerView>::empty(), Map::<PublicKey, PeerId>::empty()),
                peers@,
                final(self).room_of(),
            ),
            final(self).objects_view() == objects_added_from(
                objects_added(Map::<RemoteId, ObjectView>::empty(), PeerId(0), local@),
                peer_objects@,
            ),
            final(self).order_of().entries() == entries_after(
                old(self).order_of().entries().union_prefer_right(
                    placed_entries(objects_added(Map::<RemoteId, ObjectView>::empty(), PeerId(0), local@)),
                ),
                made_from(peer_objects@),
            ),
            forall|g: RemoteId, x: (Seq<u8>, RemoteId)| #[trigger]
                final(self).order_of().child_set(g).contains(x) <==> old(self).order_of().child_set(
                    g,
                ).contains(x) || placed_key(
                    objects_added(Map::<RemoteId, ObjectView>::empty(), PeerId(0), local@),
                    g,
                    x,
                ) || added_key(made_from(peer_objects@), g, x),
            old(self).consistent() && old(self).objects_view() == Map::<RemoteId, ObjectView>::empty()
                && fresh_pairs(
                objects_added(Map::<RemoteId, ObjectView>::empty(), PeerId(0), local@),
                peer_objects@,
            ) ==> final(self).consistent(),
    {
        let ghost cond0 = in_step(old(self).objects@, old(self).order) && old(self).objects@
            == Map::<RemoteId, ObjectView>::empty();
        self.peers.set_public_key(public_key);
        self.room = config.get_stable_id(Key::Room);
        self.mumble_object = RemoteId::local(config.get_id(Key::MumbleObject));
        self.mumble_follow = config.get_bool(Key::MumbleFollow);
        let ghost chosen = (self.selected, self.mumble_object, self.mumble_follow);
        let mut objects = ObjectsRef::new();
        let mut i: usize = 0;
        proof {
            assert(local@.take(0) =~= Seq::<RemoteObject>::empty());
        }
        while i < local.len()
            invariant
                0 <= i <= local@.len(),
                objects.wf(),
                own_groups(objects@),
                forall|j: int| 0 <= j < local@.len() ==> (#[trigger] local@[j]).props.wf(),
                objects@ == objects_added(Map::<RemoteId, ObjectView>::empty(), PeerId(0), local@.take(i as int)),
            decreases local@.len() - i,
        {
            proof {
                assert(local@.take(i + 1).drop_last() =~= local@.take(i as int));
                assert(local@.take(i + 1).last() == local@[i as int]);
            }
            match Object::new(PeerId(0), &local[i]) {
                Some(o) => {
                    objects.insert(o);
                },
                None => {},
            }
            i = i + 1;
        }
        proof {
            assert(local@.take(i as int) =~= local@);
        }
        self.objects = objects;
        let ids = self.objects.ids();
        let ghost objs = self.objects@;
        let mut i: usize = 0;
        proof {
            if cond0 {
                assert(ids@.take(0) =~= Seq::<RemoteId>::empty());
                assert forall|g: RemoteId, k: (Seq<u8>, RemoteId)| !#[trigger] self.order.child_set(g).contains(k) by {
                    if self.order.child_set(g).contains(k) {
                        assert(old(self).order.entries().contains_key(k.1));
                    }
                }
            }
        }
        while i < ids.len()
            invariant
                0 <= i <= ids@.len(),
                self.wf(),
                objs == self.objects@,
                self.room == crate::values::prop(config@, Key::Room).as_stable_id(),
                (self.selected, self.mumble_object, self.mumble_follow) == chosen,
                self.peers.own_key() == public_key,
                forall|a: int, b: int| 0 <= a < b < ids@.len() ==> ids@[a] != ids@[b],
                forall|k: RemoteId| #[trigger] ids@.contains(k) <==> objs.contains_key(k),
                self.order.entries() == old(self).order.entries().union_prefer_right(
                    ordered_entries(objs, ids@.take(i as int)),
                ),
                forall|g: RemoteId, x: (Seq<u8>, RemoteId)| #[trigger]
                    self.order.child_set(g).contains(x) <==> old(self).order.child_set(g).contains(x)
                        || (ids@.take(i as int).contains(x.1) && placed_key(objs, g, x)),
                cond0 ==> {
                    &&& forall|k: RemoteId| #[trigger]
                        self.order.entries().contains_key(k) ==> ids@.take(i as int).contains(k)
                            && !(objs[k].kind is Room)
                    &&& forall|k: RemoteId| #[trigger]
                        self.order.entries().contains_key(k) ==> self.order.entries()[k] == (
                            objs[k].group,
                            objs[k].sort,
                        )
                    &&& mirrors(self.order)
                },
            decreases ids@.len() - i,
        {
            let id = ids[i];
            proof {
                assert(ids@.contains(id));
                assert(ids@.take(i + 1) =~= ids@.take(i as int).push(id));
                assert(!ids@.take(i as int).contains(id)) by {
                    if ids@.take(i as int).contains(id) {
                        let k = choose|k: int| 0 <= k < i && ids@.take(i as int)[k] == id;
                        assert(ids@[k] == ids@[i as int]);
                    }
                }
            }
            let ghost ob = self.order;
            match self.objects.get(id) {
                Some(o) => {
                    self.order.insert(o);
                },
                None => {},
            }
            proof {
                let t0 = ids@.take(i as int);
                let t1 = ids@.take(i + 1);
                assert(objs.contains_key(id));
                let v = objs[id];
                assert(v.id == id);
                assert(inserted(ob, self.order, v));
                assert forall|k: RemoteId| #[trigger] t1.contains(k) <==> t0.contains(k) || k == id by {
                    if t1.contains(k) && k != id {
                        let j = choose|j: int| 0 <= j < t1.len() && t1[j] == k;
                        assert(t0[j] == k);
                    }
                    if t0.contains(k) {
                        let j = choose|j: int| 0 <= j < t0.len() && t0[j] == k;
                        assert(t1[j] == k);
                    }
                    if k == id {
                        assert(t1[i as int] == id);
                    }
                }
                assert(self.order.entries() =~= old(self).order.entries().union_prefer_right(
                    ordered_entries(objs, t1),
                ));
                assert forall|g: RemoteId, x: (Seq<u8>, RemoteId)| #[trigger]
                    self.order.child_set(g).contains(x) <==> old(self).order.child_set(g).contains(x)
                        || (t1.contains(x.1) && placed_key(objs, g, x)) by {
                    assert(ob.child_set(g).contains(x) <==> old(self).order.child_set(g).contains(x)
                        || (t0.contains(x.1) && placed_key(objs, g, x)));
                }
                if cond0 {
                    assert forall|k: RemoteId| #[trigger]
                        self.order.entries().contains_key(k) implies ids@.take(i + 1).contains(k)
                            && !(objs[k].kind is Room) by {
                        if k == id {
                            assert(ids@.take(i + 1)[i as int] == id);
                        } else {
                            assert(ids@.take(i + 1).contains(k) == ids@.take(i as int).contains(k));
                        }
                    }
                }
            }
            i = i + 1;
        }
        proof {
            assert(ids@.take(i as int) =~= ids@);
            assert(ordered_entries(objs, ids@) =~= placed_entries(objs));
            if cond0 {
                assert(in_step(self.objects@, self.order));
            }
        }
        let ghost order1 = self.order;
        self.peers.clear();
        let ghost all_peers = peers@;
        let ghost empty_maps = (Map::<PeerId, PeerView>::empty(), Map::<PublicKey, PeerId>::empty());
        let mut peers = peers;
        let ghost mut k: int = 0;
        proof {
            assert(all_peers.skip(0) =~= all_peers);
            assert(all_peers.take(0) =~= Seq::<RemotePeer>::empty());
        }
        while peers.len() > 0
            invariant
                0 <= k <= all_peers.len(),
                peers@ == all_peers.skip(k),
                self.wf(),
                self.objects@ == objs,
                self.order == order1,
                self.peers.own_key() == public_key,
                self.room == crate::values::prop(config@, Key::Room).as_stable_id(),
                (self.selected, self.mumble_object, self.mumble_follow) == chosen,
                forall|j: int| 0 <= j < all_peers.len() ==> (#[trigger] all_peers[j]).props.wf(),
                (self.peers.peers_view(), self.peers.keys_view()) == crate::rooms::peers_added(
                    empty_maps,
                    all_peers.take(k),
                    self.room,
                ),
                cond0 ==> in_step(self.objects@, self.order),
            decreases peers@.len(),
        {
            let peer = peers.remove(0);
            proof {
                assert(peer == all_peers[k]);
                assert(all_peers.take(k + 1).drop_last() =~= all_peers.take(k));
                assert(all_peers.take(k + 1).last() == all_peers[k]);
            }
            self.peers.insert(peer, &self.room);
            proof {
                assert(peers@ =~= all_peers.skip(k + 1));
                k = k + 1;
            }
        }
        proof {
            assert(all_peers.take(k) =~= all_peers);
        }
        let ghost cond = cond0 && fresh_pairs(objs, peer_objects@);
        let ghost all = peer_objects@;
        let mut i: usize = 0;
        proof {
            assert(all.take(0) =~= Seq::<(PeerId, RemoteObject)>::empty());
        }
        while i < peer_objects.len()
            invariant
                0 <= i <= all.len(),
                all == peer_objects@,
                self.wf(),
                self.peers.own_key() == public_key,
                self.room == crate::values::prop(config@, Key::Room).as_stable_id(),
                (self.selected, self.mumble_object, self.mumble_follow) == chosen,
                (self.peers.peers_view(), self.peers.keys_view()) == crate::rooms::peers_added(
                    empty_maps,
                    all_peers,
                    self.room,
                ),
                forall|j: int| 0 <= j < all.len() ==> (#[trigger] all[j]).1.props.wf(),
                self.objects@ == objects_added_from(objs, all.take(i as int)),
                self.order.entries() == entries_after(order1.entries(), made_from(all.take(i as int))),
                forall|g: RemoteId, x: (Seq<u8>, RemoteId)| #[trigger]
                    self.order.child_set(g).contains(x) <==> order1.child_set(g).contains(x)
                        || added_key(made_from(all.take(i as int)), g, x),
                cond == (cond0 && fresh_pairs(objs, all)),
                cond ==> in_step(self.objects@, self.order),
            decreases all.len() - i,
        {
            let ghost before = self.objects@;
            let peer_id = peer_objects[i].0;
            let object = &peer_objects[i].1;
            proof {
                assert(all.take(i + 1).drop_last() =~= all.take(i as int));
                assert(all.take(i + 1).last() == all[i as int]);
                if cond && spec_new_object(peer_id, object.id, object.ty, object.props@) is Some {
                    let x = RemoteId { peer_id: peer_id, id: object.id };
                    if before.contains_key(x) {
                        lemma_objects_added_from_keys(objs, all.take(i as int), x);
                        assert(!objs.contains_key(x)) by {
                            assert(all[i as int] == (peer_id, *object));
                        }
                        let j = choose|j: int|
                            #![trigger all.take(i as int)[j]]
                            0 <= j < all.take(i as int).len() && spec_new_object(
                                all.take(i as int)[j].0,
                                all.take(i as int)[j].1.id,
                                all.take(i as int)[j].1.ty,
                                all.take(i as int)[j].1.props@,
                            ) is Some && x == (RemoteId { peer_id: all.take(i as int)[j].0, id: all.take(i as int)[j].1.id });
                        assert(all.take(i as int)[j] == all[j]);
                        assert(all[i as int] == (peer_id, *object));
                        assert(all[j].0 != all[i as int].0 || all[j].1.id != all[i as int].1.id);
                    }
                }
            }
            self.object_created(RemoteId::new(peer_id, object.id), object);
            proof {
                let made = made_from(all.take(i as int));
                match spec_new_object(peer_id, object.id, object.ty, object.props@) {
                    Some(v) => {
                        assert(made_from(all.take(i + 1)) == made.push(v));
                        assert(made.push(v).drop_last() =~= made);
                        assert forall|g: RemoteId, x: (Seq<u8>, RemoteId)| #[trigger]
                            self.order.child_set(g).contains(x) <==> order1.child_set(g).contains(x)
                                || added_key(made.push(v), g, x) by {
                            lemma_added_key_push(made, v, g, x);
                        }
                    },
                    None => {
                        assert(made_from(all.take(i + 1)) == made);
                    },
                }
            }
            i = i + 1;
        }
        proof {
            assert(all.take(i as int) =~= all);
        }
        self.name = config.get_str(Key::PeerName).to_owned();
        true
    }
}

/// Replacing an object by one at the same place, of a kind as global as
/// before, keeps the order in step.
proof fn lemma_in_step_same_place(objs: Map<RemoteId, ObjectView>, order: OrderRef, id: RemoteId, o: ObjectView)
    requires
        in_step(objs, order),
        objs.contains_key(id),
        o.group == objs[id].group,
        o.sort == objs[id].sort,
        (o.kind is Room) == (objs[id].kind is Room),
    ensures
        in_step(objs.insert(id, o), order),
{
}

/// Whether this client may change object `id`: it is one of its own.
pub open spec fn own_object(objs: Map<RemoteId, ObjectView>, id: RemoteId) -> bool {
    id != zero_id() && id.peer_id.0 == 0 && objs.contains_key(id)
}

impl Scene {
    /// Sets a flag property of one of this client's own objects, keeping
    /// everything else.
    fn set_flag(&mut self, id: RemoteId, key: Key, value: bool)
        requires
            old(self).wf(),
            old(self).objects@.contains_key(id),
            key == Key::Hidden || key == Key::LocalHidden || key == Key::Locked || key == Key::Expanded,
        ensures
            final(self).wf(),
            final(self).objects@ == old(self).objects@.insert(
                id,
                spec_update(old(self).objects@[id], key, crate::values::ValueView::Bool(value)),
            ),
            final(self).order == old(self).order,
            final(self).peers == old(self).peers,
            final(self).room == old(self).room,
            same_choices(*old(self), *final(self)),
            in_step(old(self).objects@, old(self).order) ==> in_step(final(self).objects@, final(self).order),
    {
        self.objects.update(id, key, &Value::Bool(value));
        proof {
            let o = old(self).objects@[id];
            let n = spec_update(o, key, crate::values::ValueView::Bool(value));
            assert(n.kind is Room <==> o.kind is Room);
            if in_step(old(self).objects@, old(self).order) {
                lemma_in_step_same_place(old(self).objects@, old(self).order, id, n);
            }
        }
    }

    /// Flips whether one of this client's own objects is hidden from
    /// others. Returns the update to send.
    pub fn toggle_hidden(&mut self, id: RemoteId) -> (r: Option<(Key, Value)>)
        requires
            old(self).wf(),
        ensures
            final(self).wf(),
            final(self).order_of() == old(self).order_of(),
            final(self).peer_set() == old(self).peer_set(),
            final(self).room_of() == old(self).room_of(),
            same_choices(*old(self), *final(self)),
            own_object(old(self).objects_view(), id) ==> {
                let o = old(self).objects_view()[id];
                &&& final(self).objects_view() == old(self).objects_view().insert(
                    id,
                    ObjectView { hidden: !o.hidden, ..o },
                )
                &&& r matches Some(u) && u.0 == Key::Hidden && u.1@ == crate::values::ValueView::Bool(!o.hidden)
            },
            !own_object(old(self).objects_view(), id) ==> r is None && final(self).objects_view()
                == old(self).objects_view(),
            old(self).consistent() ==> final(self).consistent(),
    {
        if id.is_root() || !id.is_local() {
            return None;
        }
        let new = match self.objects.get(id) {
            Some(o) => !o.is_hidden(),
            None => {
                return None;
            },
        };
        self.set_flag(id, Key::Hidden, new);
        Some((Key::Hidden, Value::Bool(new)))
    }

    /// Flips whether one of this client's own objects is hidden here.
    /// Returns the update to send.
    pub fn toggle_local_hidden(&mut self, id: RemoteId) -> (r: Option<(Key, Value)>)
        requires
            old(self).wf(),
        ensures
            final(self).wf(),
            final(self).order_of() == old(self).order_of(),
            final(self).peer_set() == old(self).peer_set(),
            final(self).room_of() == old(self).room_of(),
            same_choices(*old(self), *final(self)),
            own_object(old(self).objects_view(), id) ==> {
                let o = old(self).objects_view()[id];
                &&& final(self).objects_view() == old(self).objects_view().insert(
                    id,
                    ObjectView { local_hidden: !o.local_hidden, ..o },
                )
                &&& r matches Some(u) && u.0 == Key::LocalHidden && u.1@ == crate::values::ValueView::Bool(
                    !o.local_hidden,
                )
            },
            !own_object(old(self).objects_view(), id) ==> r is None && final(self).objects_view()
                == old(self).objects_view(),
            old(self).consistent() ==> final(self).consistent(),
    {
        if id.is_root() || !id.is_local() {
            return None;
        }
        let new = match self.objects.get(id) {
            Some(o) => !o.is_local_hidden(),
            None => {
                return None;
            },
        };
        self.set_flag(id, Key::LocalHidden, new);
        Some((Key::LocalHidden, Value::Bool(new)))
    }

    /// Flips whether one of this client's own objects is locked; rooms
    /// cannot be. Returns the update to send.
    pub fn toggle_locked(&mut self, id: RemoteId) -> (r: Option<(Key, Value)>)
        requires
            old(self).wf(),
        ensures
            final(self).wf(),
            final(self).order_of() == old(self).order_of(),
            final(self).peer_set() == old(self).peer_set(),
            final(self).room_of() == old(self).room_of(),
            same_choices(*old(self), *final(self)),
            own_object(old(self).objects_view(), id) && !(old(self).objects_view()[id].kind is Room) ==> {
                let o = old(self).objects_view()[id];
                let locked = crate::objects::spec_is_locked(o);
                &&& final(self).objects_view() == old(self).objects_view().insert(
                    id,
                    spec_update(o, Key::Locked, crate::values::ValueView::Bool(!locked)),
                )
                &&& crate::objects::spec_is_locked(final(self).objects_view()[id]) == !locked
                &&& r matches Some(u) && u.0 == Key::Locked && u.1@ == crate::values::ValueView::Bool(!locked)
            },
            !(own_object(old(self).objects_view(), id) && !(old(self).objects_view()[id].kind is Room))
                ==> r is None && final(self).objects_view() == old(self).objects_view(),
            old(self).consistent() ==> final(self).consistent(),
    {
        if id.is_root() || !id.is_local() {
            return None;
        }
        let new = match self.objects.get(id) {
            Some(o) => {
                if o.is_global() {
                    return None;
                }
                !o.is_locked()
            },
            None => {
                return None;
            },
        };
        self.set_flag(id, Key::Locked, new);
        Some((Key::Locked, Value::Bool(new)))
    }

    /// Flips whether one of this client's own groups is shown expanded.
    /// Returns the update to send.
    pub fn toggle_expanded(&mut self, id: RemoteId) -> (r: Option<(Key, Value)>)
        requires
            old(self).wf(),
        ensures
            final(self).wf(),
            final(self).order_of() == old(self).order_of(),
            final(self).peer_set() == old(self).peer_set(),
            final(self).room_of() == old(self).room_of(),
            same_choices(*old(self), *final(self)),
            own_object(old(self).objects_view(), id) && old(self).objects_view()[id].kind is Group ==> {
                let o = old(self).objects_view()[id];
                let expanded = crate::object_list::spec_expanded(o);
                &&& final(self).objects_view() == old(self).objects_view().insert(
                    id,
                    spec_update(o, Key::Expanded, crate::values::ValueView::Bool(!expanded)),
                )
                &&& crate::object_list::spec_expanded(final(self).objects_view()[id]) == !expanded
                &&& r matches Some(u) && u.0 == Key::Expanded && u.1@ == crate::values::ValueView::Bool(!expanded)
            },
            !(own_object(old(self).objects_view(), id) && old(self).objects_view()[id].kind is Group)
                ==> r is None && final(self).objects_view() == old(self).objects_view(),
            old(self).consistent() ==> final(self).consistent(),
    {
        if id.is_root() || !id.is_local() {
            return None;
        }
        let new = match self.objects.get(id) {
            Some(o) => {
                if !o.is_group() {
                    return None;
                }
                !o.is_expanded()
            },
            None => {
                return None;
            },
        };
        self.set_flag(id, Key::Expanded, new);
        Some((Key::Expanded, Value::Bool(new)))
    }

    /// Makes one of this client's own objects the Mumble source, or clears
    /// the source where it already is. Returns the source to announce.
    pub fn toggle_mumble_object(&mut self, id: RemoteId) -> (r: Option<RemoteId>)
        requires
            old(self).wf(),
        ensures
            final(self).wf(),
            final(self).objects_view() == old(self).objects_view(),
            final(self).order_of() == old(self).order_of(),
            final(self).peer_set() == old(self).peer_set(),
            final(self).room_of() == old(self).room_of(),
            final(self).selected_of() == old(self).selected_of(),
            final(self).follow_of() == old(self).follow_of(),
            id == zero_id() || id.peer_id.0 != 0 ==> r is None && final(self).mumble_of()
                == old(self).mumble_of(),
            !(id == zero_id() || id.peer_id.0 != 0) ==> {
                let m = if old(self).mumble_of() == id {
                    zero_id()
                } else {
                    id
                };
                &&& final(self).mumble_of() == m
                &&& r == Some(m)
            },
            old(self).consistent() ==> final(self).consistent(),
    {
        if id.is_root() || !id.is_local() {
            return None;
        }
        let update = if self.mumble_object.same(&id) {
            RemoteId::zero()
        } else {
            id
        };
        self.mumble_object = update;
        Some(update)
    }

    /// A setting of this client changed: its room, its Mumble source, or
    /// whether the source follows the selection. Echoes of this client's
    /// own changes are ignored. Returns whether the setting changed.
    pub fn config_update(&mut self, from_self: bool, key: Key, value: &Value) -> (r: bool)
        requires
            old(self).wf(),
        ensures
            final(self).wf(),
            final(self).objects_view() == old(self).objects_view(),
            final(self).order_of() == old(self).order_of(),
            final(self).selected_of() == old(self).selected_of(),
            from_self ==> !r && final(self).peer_set() == old(self).peer_set() && final(self).room_of()
                == old(self).room_of() && same_choices(*old(self), *final(self)),
            !from_self && key == Key::MumbleObject ==> {
                let m = RemoteId { peer_id: PeerId(0), id: value@.as_id() };
                &&& r == (m != old(self).mumble_of())
                &&& final(self).mumble_of() == m
                &&& final(self).follow_of() == old(self).follow_of()
                &&& final(self).peer_set() == old(self).peer_set()
                &&& final(self).room_of() == old(self).room_of()
            },
            !from_self && key == Key::MumbleFollow ==> {
                &&& r == (value@.as_bool() != old(self).follow_of())
                &&& final(self).follow_of() == value@.as_bool()
                &&& final(self).mumble_of() == old(self).mumble_of()
                &&& final(self).peer_set() == old(self).peer_set()
                &&& final(self).room_of() == old(self).room_of()
            },
            !from_self && key == Key::Room ==> {
                &&& r == (value@.as_stable_id() != old(self).room_of())
                &&& final(self).room_of() == value@.as_stable_id()
                &&& same_choices(*old(self), *final(self))
                &&& final(self).peer_set().own_key() == old(self).peer_set().own_key()
                &&& final(self).peer_set().keys_view() == old(self).peer_set().keys_view()
                &&& !r ==> final(self).peer_set() == old(self).peer_set()
                &&& r ==> final(self).peer_set().peers_view().dom() == old(self).peer_set().peers_view().dom()
                &&& r ==> forall|p: PeerId| #[trigger]
                    old(self).peer_set().peers_view().contains_key(p) ==> final(self).peer_set().peers_view()[p]
                        == (PeerView {
                        in_room: crate::values::prop(old(self).peer_set().peers_view()[p].props, Key::Room).as_stable_id()
                            == value@.as_stable_id(),
                        ..old(self).peer_set().peers_view()[p]
                    })
            },
            !from_self && key == Key::PeerName ==> {
                &&& r == (value@.as_str() != old(self).name_of())
                &&& final(self).name_of() == value@.as_str()
                &&& final(self).mumble_of() == old(self).mumble_of()
                &&& final(self).follow_of() == old(self).follow_of()
                &&& final(self).peer_set() == old(self).peer_set()
                &&& final(self).room_of() == old(self).room_of()
            },
            key != Key::PeerName ==> final(self).name_of() == old(self).name_of(),
            !from_self && key != Key::MumbleObject && key != Key::MumbleFollow && key != Key::Room
                && key != Key::PeerName ==> !r && final(self).peer_set() == old(self).peer_set()
                && final(self).room_of() == old(self).room_of() && same_choices(*old(self), *final(self)),
            old(self).consistent() ==> final(self).consistent(),
    {
        if from_self {
            return false;
        }
        match key {
            Key::MumbleObject => {
                let m = RemoteId::local(value.as_id());
                if self.mumble_object.same(&m) {
                    return false;
                }
                self.mumble_object = m;
                true
            },
            Key::MumbleFollow => {
                let follow = value.as_bool();
                if self.mumble_follow == follow {
                    return false;
                }
                self.mumble_follow = follow;
                true
            },
            Key::Room => self.set_room(value.as_stable_id()),
            Key::PeerName => {
                let name = value.as_str();
                if crate::settings::text_eq(self.name.as_str(), name) {
                    return false;
                }
                self.name = name.to_owned();
                true
            },
            _ => false,
        }
    }

    /// Flips whether the Mumble source follows the selection; returns the
    /// new setting, to be announced.
    pub fn toggle_follow(&mut self) -> (r: bool)
        requires
            old(self).wf(),
        ensures
            final(self).wf(),
            r == !old(self).follow_of(),
            final(self).follow_of() == r,
            final(self).objects_view() == old(self).objects_view(),
            final(self).order_of() == old(self).order_of(),
            final(self).peer_set() == old(self).peer_set(),
            final(self).room_of() == old(self).room_of(),
            final(self).selected_of() == old(self).selected_of(),
            final(self).mumble_of() == old(self).mumble_of(),
            final(self).name_of() == old(self).name_of(),
    {
        self.mumble_follow = !self.mumble_follow;
        self.mumble_follow
    }

    /// The dialog to open for object `id`: where the object or a group it
    /// sits in is locked, the one that offers to unlock it; otherwise the
    /// settings, or the confirmation of its removal where `remove` is set.
    /// `None` where there is no such object.
    pub fn dialog_for(&self, id: RemoteId, remove: bool) -> (r: Option<Dialog>)
        requires
            self.wf(),
            reaches_end(self.objects_view(), id),
        ensures
            !self.objects_view().contains_key(id) ==> r is None,
            self.objects_view().contains_key(id) ==> forall|n: nat|
                #[trigger] chain_ends(self.objects_view(), id, n) ==> r == Some(
                    if chain_locked(self.objects_view(), id, n) {
                        Dialog::Unlock(id)
                    } else if remove {
                        Dialog::Remove(id)
                    } else {
                        Dialog::Settings(id)
                    },
                ),
    {
        if self.objects.get(id).is_none() {
            return None;
        }
        if self.objects.is_locked(id) {
            Some(Dialog::Unlock(id))
        } else if remove {
            Some(Dialog::Remove(id))
        } else {
            Some(Dialog::Settings(id))
        }
    }

    /// How this client is shown to itself: its name followed by "(You)",
    /// or just "You" where it has no name.
    pub fn display(&self) -> (r: String)
        ensures
            r@ == if self.name_of().len() == 0 {
                "You"@
            } else {
                self.name_of() + " (You)"@
            },
    {
        if self.name.as_str().is_empty() {
            return "You".to_owned();
        }
        let mut r = self.name.clone();
        r.push_str(" (You)");
        r
    }
}

} // verus!
