use vstd::prelude::*;

use crate::children::{sorted, Children};
use crate::id_map::IdMap;
use crate::ids::{as_group, spec_as_group, zero_id, PeerId, RemoteId};
use crate::objects::{Object, ObjectView};
use crate::sort_key::{compare_bytes, Cmp, KeyView, SortKey};
use crate::values::{copy_bytes, Key, Value, ValueView};
use crate::walk::{acyclic_from, bounded, dedup_onto, groups_of, kids_in, walk_groups, walk_list, Tree};

verus! {

/// Where an object sits: its group and its sort bytes.
#[derive(Debug)]
pub struct ObjectData {
    pub group: RemoteId,
    pub sort: Vec<u8>,
}

/// The order of the objects of a session: for each group, its children
/// sorted by their sort keys, and for each object, where it sits.
pub struct OrderRef {
    objects: IdMap<ObjectData>,
    children: IdMap<Children>,
}

/// The set of keys of a sequence.
pub open spec fn key_set(s: Seq<KeyView>) -> Set<KeyView> {
    Set::new(|x: KeyView| s.contains(x))
}

/// Group `g`'s children after key `ok` leaves group `og` and key `nk`
/// joins group `ng`.
pub open spec fn moved_set(
    s: Set<KeyView>,
    g: RemoteId,
    og: RemoteId,
    ok: KeyView,
    ng: RemoteId,
    nk: KeyView,
) -> Set<KeyView> {
    let m = if g == og {
        s.remove(ok)
    } else {
        s
    };
    if g == ng {
        m.insert(nk)
    } else {
        m
    }
}

/// The children of `new` are those of `old` after the move of an object from
/// key `ok` in group `og` to key `nk` in group `ng`; nothing moves where `ok`
/// is not in `og`.
pub open spec fn sets_after_move(
    old: OrderRef,
    new: OrderRef,
    og: RemoteId,
    ok: KeyView,
    ng: RemoteId,
    nk: KeyView,
) -> bool {
    if old.child_set(spec_as_group(og)).contains(ok) {
        forall|g: RemoteId| #[trigger]
            new.child_set(g) == moved_set(
                old.child_set(g),
                g,
                spec_as_group(og),
                ok,
                spec_as_group(ng),
                nk,
            )
    } else {
        forall|g: RemoteId| #[trigger] new.child_set(g) == old.child_set(g)
    }
}

/// A move succeeds where `ok` is in group `og` and `nk` was not already in
/// group `ng` once `ok` left.
pub open spec fn move_result(
    old: OrderRef,
    og: RemoteId,
    ok: KeyView,
    ng: RemoteId,
    nk: KeyView,
) -> bool {
    &&& old.child_set(spec_as_group(og)).contains(ok)
    &&& !(if spec_as_group(ng) == spec_as_group(og) {
        old.child_set(spec_as_group(og)).remove(ok)
    } else {
        old.child_set(spec_as_group(ng))
    }).contains(nk)
}

/// Where objects sit after the objects `objs` were added in turn.
/// Whether an object takes a place in the order: it is no room and has a
/// sort key.
pub open spec fn ordered(o: ObjectView) -> bool {
    !(o.kind is Room) && o.sort.len() > 0
}

pub open spec fn entries_after(
    m: Map<RemoteId, (RemoteId, Seq<u8>)>,
    objs: Seq<ObjectView>,
) -> Map<RemoteId, (RemoteId, Seq<u8>)>
    decreases objs.len(),
{
    if objs.len() == 0 {
        m
    } else {
        let m2 = entries_after(m, objs.drop_last());
        let o = objs.last();
        if ordered(o) {
            m2.insert(o.id, (o.group, o.sort))
        } else {
            m2
        }
    }
}

/// Whether one of the ordered objects of `objs` sits at key `x` of group `g`.
pub open spec fn added_key(objs: Seq<ObjectView>, g: RemoteId, x: KeyView) -> bool {
    exists|i: int|
        0 <= i < objs.len() && ordered(objs[i]) && spec_as_group(#[trigger] objs[i].group)
            == g && x == (objs[i].sort, objs[i].id)
}

/// An object that is ordered stays ordered: inserting an object keeps every
/// entry and adds the new object where it has a place, and setting a
/// property of an object keeps every entry, moving the object where its
/// group or sort bytes changed.
pub proof fn law_ordered_objects_stay(
    o0: OrderRef,
    o1: OrderRef,
    o2: OrderRef,
    v: ObjectView,
    id: RemoteId,
    key: Key,
    value: ValueView,
    k: RemoteId,
)
    requires
        inserted(o0, o1, v),
        order_after_update(o1, o2, id, key, value),
    ensures
        o0.entries().contains_key(k) ==> o1.entries().contains_key(k),
        ordered(v) ==> o1.entries().contains_key(v.id) && o1.entries()[v.id] == (v.group, v.sort),
        o1.entries().contains_key(k) ==> o2.entries().contains_key(k),
        o2.entries().dom() == o1.entries().dom(),
{
    assert(o2.entries().dom() =~= o1.entries().dom());
}

/// Adding one more object adds its key, where it has a place, to those
/// already added.
pub proof fn lemma_added_key_push(objs: Seq<ObjectView>, v: ObjectView, g: RemoteId, x: KeyView)
    ensures
        added_key(objs.push(v), g, x) <==> added_key(objs, g, x) || (ordered(v) && spec_as_group(
            v.group,
        ) == g && x == (v.sort, v.id)),
{
    let t = objs.push(v);
    if added_key(objs, g, x) {
        let j = choose|j: int|
            0 <= j < objs.len() && ordered(objs[j]) && spec_as_group(#[trigger] objs[j].group) == g
                && x == (objs[j].sort, objs[j].id);
        assert(t[j] == objs[j]);
    }
    if ordered(v) && spec_as_group(v.group) == g && x == (v.sort, v.id) {
        assert(t[objs.len() as int] == v);
    }
    if added_key(t, g, x) {
        let j = choose|j: int|
            0 <= j < t.len() && ordered(t[j]) && spec_as_group(#[trigger] t[j].group) == g && x == (
                t[j].sort,
                t[j].id,
            );
        if j < objs.len() {
            assert(objs[j] == t[j]);
        }
    }
}

/// The order mirrors its objects: each object sits at its own key in its
/// group, and each key of a group is that of an object sitting there.
pub open spec fn mirrors(o: OrderRef) -> bool {
    &&& forall|id: RemoteId| #[trigger]
        o.entries().contains_key(id) ==> o.child_set(spec_as_group(o.entries()[id].0)).contains(
            (o.entries()[id].1, id),
        )
    &&& forall|g: RemoteId, k: KeyView| #[trigger]
        o.child_set(g).contains(k) ==> o.entries().contains_key(k.1) && spec_as_group(
            o.entries()[k.1].0,
        ) == g && o.entries()[k.1].1 == k.0
}

/// Moving a mirrored object to a new place keeps the order mirrored.
pub proof fn lemma_move_mirrors(old: OrderRef, new: OrderRef, id: RemoteId, ng: RemoteId, ns: Seq<u8>)
    requires
        mirrors(old),
        old.entries().contains_key(id),
        new.entries() == old.entries().insert(id, (ng, ns)),
        sets_after_move(old, new, old.entries()[id].0, (old.entries()[id].1, id), ng, (ns, id)),
    ensures
        mirrors(new),
{
    let (g0, s0) = old.entries()[id];
    let og = spec_as_group(g0);
    let ok = (s0, id);
    let nag = spec_as_group(ng);
    let nk = (ns, id);
    assert(old.child_set(og).contains(ok));
    assert forall|x: RemoteId| #[trigger] new.entries().contains_key(x) implies new.child_set(
        spec_as_group(new.entries()[x].0),
    ).contains((new.entries()[x].1, x)) by {
        let g = spec_as_group(new.entries()[x].0);
        assert(new.child_set(g) == moved_set(old.child_set(g), g, og, ok, nag, nk));
        if x != id {
            assert(old.entries().contains_key(x));
            assert(old.child_set(g).contains((old.entries()[x].1, x)));
        }
    }
    assert forall|g: RemoteId, q: KeyView| #[trigger] new.child_set(g).contains(q) implies new.entries().contains_key(q.1)
        && spec_as_group(new.entries()[q.1].0) == g && new.entries()[q.1].1 == q.0 by {
        assert(new.child_set(g) == moved_set(old.child_set(g), g, og, ok, nag, nk));
        if !(g == nag && q == nk) {
            assert(old.child_set(g).contains(q));
            assert(old.entries().contains_key(q.1));
            if q.1 == id {
                assert(q == ok && g == og);
            }
        }
    }
}

/// `new` holds the same objects and children as `old`.
pub open spec fn unchanged(old: OrderRef, new: OrderRef) -> bool {
    &&& new.entries() == old.entries()
    &&& forall|g: RemoteId| #[trigger] new.child_set(g) == old.child_set(g)
}

/// `o1` is `o0` after object `v` was inserted: it takes its place where it
/// has one, and nothing changes otherwise.
pub open spec fn inserted(o0: OrderRef, o1: OrderRef, v: ObjectView) -> bool {
    if ordered(v) {
        &&& o1.entries() == o0.entries().insert(v.id, (v.group, v.sort))
        &&& forall|g: RemoteId| #[trigger]
            o1.child_set(g) == if g == spec_as_group(v.group) {
                o0.child_set(g).insert((v.sort, v.id))
            } else {
                o0.child_set(g)
            }
    } else {
        unchanged(o0, o1)
    }
}

/// `o1` is `o0` after property `key` of object `id` was set to `value`: an
/// ordered object moves to its new sort bytes or group, and nothing else
/// changes.
pub open spec fn order_after_update(
    o0: OrderRef,
    o1: OrderRef,
    id: RemoteId,
    key: Key,
    value: ValueView,
) -> bool {
    if !o0.entries().contains_key(id) {
        unchanged(o0, o1)
    } else {
        let (g0, s0) = o0.entries()[id];
        match key {
            Key::Sort => {
                let ns = value.as_bytes();
                if ns == s0 {
                    unchanged(o0, o1)
                } else {
                    &&& o1.entries() == o0.entries().insert(id, (g0, ns))
                    &&& sets_after_move(o0, o1, g0, (s0, id), g0, (ns, id))
                }
            },
            Key::Group => {
                let ng = RemoteId { peer_id: id.peer_id, id: value.as_id() };
                if ng == g0 {
                    unchanged(o0, o1)
                } else {
                    &&& o1.entries() == o0.entries().insert(id, (ng, s0))
                    &&& sets_after_move(o0, o1, g0, (s0, id), ng, (s0, id))
                }
            },
            _ => unchanged(o0, o1),
        }
    }
}

impl OrderRef {
    /// Where each known object sits: its group and its sort bytes.
    pub closed spec fn entries(&self) -> Map<RemoteId, (RemoteId, Seq<u8>)> {
        self.objects@.map_values(|d: ObjectData| (d.group, d.sort@))
    }

    /// The children of group `g`, in order.
    pub closed spec fn child_seq(&self, g: RemoteId) -> Seq<KeyView> {
        if self.children@.contains_key(g) {
            self.children@[g]@
        } else {
            Seq::empty()
        }
    }

    /// The children of group `g`.
    pub open spec fn child_set(&self, g: RemoteId) -> Set<KeyView> {
        key_set(self.child_seq(g))
    }

    /// Each group's children are strictly increasing, and no group is
    /// stored empty.
    pub closed spec fn wf(&self) -> bool {
        &&& self.objects.wf()
        &&& self.children.wf()
        &&& forall|g: RemoteId| #[trigger]
            self.children@.contains_key(g) ==> self.children@[g].wf() && self.children@[g]@.len()
                > 0
    }

    /// The children of every group come in increasing key order.
    pub proof fn lemma_sorted(&self, g: RemoteId)
        requires
            self.wf(),
        ensures
            sorted(self.child_seq(g)),
    {
    }

    pub fn new() -> (r: OrderRef)
        ensures
            r.wf(),
            r.entries() == Map::<RemoteId, (RemoteId, Seq<u8>)>::empty(),
            forall|g: RemoteId| #[trigger] r.child_seq(g) == Seq::<KeyView>::empty(),
    {
        let r = OrderRef { objects: IdMap::new(), children: IdMap::new() };
        assert(r.entries() =~= Map::<RemoteId, (RemoteId, Seq<u8>)>::empty());
        r
    }

    /// Adds key `(sort, id)` to group `as_group(group)`.
    fn data_insert(&mut self, group: RemoteId, sort: Vec<u8>, id: RemoteId) -> (r: bool)
        requires
            old(self).wf(),
        ensures
            final(self).wf(),
            final(self).entries() == old(self).entries(),
            r == !old(self).child_set(spec_as_group(group)).contains((sort@, id)),
            forall|g: RemoteId| #[trigger]
                final(self).child_set(g) == if g == spec_as_group(group) {
                    old(self).child_set(g).insert((sort@, id))
                } else {
                    old(self).child_set(g)
                },
    {
        let g = as_group(group);
        let ghost k = (sort@, id);
        let mut set = match self.children.remove(&g) {
            Some(set) => set,
            None => Children::new(),
        };
        let ghost before = set@;
        assert(before == old(self).child_seq(g));
        let inserted = set.insert(SortKey { sort, id });
        let ghost after = set@;
        self.children.insert(g, set);
        proof {
            assert(self.entries() =~= old(self).entries());
            assert forall|h: RemoteId| #[trigger]
                self.child_set(h) == if h == g {
                    old(self).child_set(h).insert(k)
                } else {
                    old(self).child_set(h)
                } by {
                if h == g {
                    assert(self.child_seq(h) == after);
                    assert(self.child_set(h) =~= old(self).child_set(h).insert(k));
                } else {
                    assert(self.child_seq(h) == old(self).child_seq(h));
                }
            }
            assert(inserted == !old(self).child_set(g).contains(k));
        }
        inserted
    }

    /// Removes key `(sort, id)` from group `as_group(group)`, dropping the
    /// group where it becomes empty.
    fn data_remove(&mut self, group: RemoteId, sort: &[u8], id: RemoteId) -> (r: bool)
        requires
            old(self).wf(),
        ensures
            final(self).wf(),
            final(self).entries() == old(self).entries(),
            r == old(self).child_set(spec_as_group(group)).contains((sort@, id)),
            forall|g: RemoteId| #[trigger]
                final(self).child_set(g) == if g == spec_as_group(group) {
                    old(self).child_set(g).remove((sort@, id))
                } else {
                    old(self).child_set(g)
                },
    {
        let g = as_group(group);
        let ghost k = (sort@, id);
        match self.children.remove(&g) {
            None => {
                proof {
                    assert(self.children@ =~= old(self).children@);
                    assert forall|h: RemoteId| #[trigger]
                        self.child_set(h) == if h == g {
                            old(self).child_set(h).remove(k)
                        } else {
                            old(self).child_set(h)
                        } by {
                        if h == g {
                            assert(self.child_set(h) =~= old(self).child_set(h).remove(k));
                        }
                    }
                }
                false
            },
            Some(mut set) => {
                let removed = set.remove(sort, id);
                let ghost after = set@;
                if !set.is_empty() {
                    self.children.insert(g, set);
                }
                proof {
                    assert(self.entries() =~= old(self).entries());
                    assert forall|h: RemoteId| #[trigger]
                        self.child_set(h) == if h == g {
                            old(self).child_set(h).remove(k)
                        } else {
                            old(self).child_set(h)
                        } by {
                        if h == g {
                            if after.len() > 0 {
                                assert(self.child_seq(h) == after);
                            } else {
                                assert(self.child_seq(h) == Seq::<KeyView>::empty());
                                assert forall|x: KeyView| !after.contains(x) by {}
                            }
                            assert(self.child_set(h) =~= old(self).child_set(h).remove(k));
                        } else {
                            assert(self.child_seq(h) == old(self).child_seq(h));
                        }
                    }
                }
                removed
            },
        }
    }

    /// Moves key `(old_sort, id)` of group `old_group` to key
    /// `(new_sort, id)` of group `new_group`; does nothing and returns
    /// `false` where the old key is missing.
    fn data_reorder(
        &mut self,
        old_group: RemoteId,
        old_sort: &[u8],
        new_group: RemoteId,
        new_sort: &[u8],
        id: RemoteId,
    ) -> (r: bool)
        requires
            old(self).wf(),
        ensures
            final(self).wf(),
            final(self).entries() == old(self).entries(),
            sets_after_move(*old(self), *final(self), old_group, (old_sort@, id), new_group, (new_sort@, id)),
            r == move_result(*old(self), old_group, (old_sort@, id), new_group, (new_sort@, id)),
    {
        if !self.data_remove(old_group, old_sort, id) {
            proof {
                assert forall|g: RemoteId| #[trigger] self.child_set(g) == old(self).child_set(g) by {
                    if g == spec_as_group(old_group) {
                        assert(old(self).child_set(g).remove((old_sort@, id)) =~= old(self).child_set(g));
                    }
                }
            }
            return false;
        }
        let ghost mid = *self;
        let r = self.data_insert(new_group, copy_bytes(new_sort), id);
        proof {
            let og = spec_as_group(old_group);
            let ng = spec_as_group(new_group);
            let ok = (old_sort@, id);
            let nk = (new_sort@, id);
            assert forall|g: RemoteId| #[trigger]
                self.child_set(g) == moved_set(old(self).child_set(g), g, og, ok, ng, nk) by {
                assert(mid.child_set(g) == if g == og {
                    old(self).child_set(g).remove(ok)
                } else {
                    old(self).child_set(g)
                });
            }
            assert(mid.child_set(ng) == if ng == og {
                old(self).child_set(og).remove(ok)
            } else {
                old(self).child_set(ng)
            });
        }
        r
    }

    /// Adds an object at its group and sort key; global objects and objects
    /// without a sort key are not ordered. Returns whether anything changed.
    pub fn insert(&mut self, object: &Object) -> (r: bool)
        requires
            old(self).wf(),
        ensures
            final(self).wf(),
            !ordered(object@) ==> !r && final(self).entries() == old(self).entries() && forall|g: RemoteId| #[trigger] final(self).child_set(g) == old(self).child_set(g),
            ordered(object@) ==> {
                &&& final(self).entries() == old(self).entries().insert(object.id, (object@.group, object@.sort))
                &&& forall|g: RemoteId| #[trigger]
                    final(self).child_set(g) == if g == spec_as_group(object@.group) {
                        old(self).child_set(g).insert((object@.sort, object.id))
                    } else {
                        old(self).child_set(g)
                    }
                &&& r == (!old(self).child_set(spec_as_group(object@.group)).contains((object@.sort, object.id))
                    || !old(self).entries().contains_key(object.id))
            },
            mirrors(*old(self)) && !old(self).entries().contains_key(object.id) ==> mirrors(*final(self)),
            inserted(*old(self), *final(self), object@),
    {
        if object.is_global() || object.sort.get().len() == 0 {
            return false;
        }
        let group = *object.group.get();
        let id = object.id;
        let mut update = self.data_insert(group, copy_bytes(object.sort.get().as_slice()), id);
        let ghost mid = *self;
        let data = ObjectData { group, sort: copy_bytes(object.sort.get().as_slice()) };
        let ghost dv = (data.group, data.sort@);
        if self.objects.insert(id, data).is_none() {
            update = true;
        }
        proof {
            assert(self.children@ == mid.children@);
            assert forall|g: RemoteId| #[trigger] self.child_set(g) == mid.child_set(g) by {
                assert(self.child_seq(g) == mid.child_seq(g));
            }
            assert(self.entries() =~= old(self).entries().insert(id, dv));
            if mirrors(*old(self)) && !old(self).entries().contains_key(id) {
                let ag = spec_as_group(dv.0);
                let k = (dv.1, id);
                assert forall|x: RemoteId| #[trigger] self.entries().contains_key(x) implies self.child_set(
                    spec_as_group(self.entries()[x].0),
                ).contains((self.entries()[x].1, x)) by {
                    if x != id {
                        assert(old(self).entries().contains_key(x));
                    }
                }
                assert forall|g: RemoteId, q: KeyView| #[trigger] self.child_set(g).contains(q) implies self.entries().contains_key(q.1) && spec_as_group(
                    self.entries()[q.1].0,
                ) == g && self.entries()[q.1].1 == q.0 by {
                    if !(g == ag && q == k) {
                        assert(old(self).child_set(g).contains(q));
                        assert(old(self).entries().contains_key(q.1));
                    }
                }
            }
        }
        update
    }

    /// Removes an object; returns whether its key was found in its group.
    pub fn remove(&mut self, id: RemoteId) -> (r: bool)
        requires
            old(self).wf(),
        ensures
            final(self).wf(),
            final(self).entries() == old(self).entries().remove(id),
            !old(self).entries().contains_key(id) ==> !r && forall|g: RemoteId| #[trigger] final(self).child_set(g) == old(self).child_set(g),
            old(self).entries().contains_key(id) ==> {
                let (og, os) = old(self).entries()[id];
                &&& r == old(self).child_set(spec_as_group(og)).contains((os, id))
                &&& forall|g: RemoteId| #[trigger]
                    final(self).child_set(g) == if g == spec_as_group(og) {
                        old(self).child_set(g).remove((os, id))
                    } else {
                        old(self).child_set(g)
                    }
            },
            mirrors(*old(self)) ==> mirrors(*final(self)),
    {
        match self.objects.remove(&id) {
            None => {
                proof {
                    assert(self.entries() =~= old(self).entries().remove(id));
                    assert forall|g: RemoteId| #[trigger] self.child_set(g) == old(self).child_set(g) by {
                        assert(self.child_seq(g) == old(self).child_seq(g));
                    }
                }
                false
            },
            Some(o) => {
                let ghost mid = *self;
                proof {
                    assert(mid.entries() =~= old(self).entries().remove(id));
                    assert forall|g: RemoteId| #[trigger] mid.child_set(g) == old(self).child_set(g) by {
                        assert(mid.child_seq(g) == old(self).child_seq(g));
                    }
                }
                let r = self.data_remove(o.group, o.sort.as_slice(), id);
                proof {
                    if mirrors(*old(self)) {
                        let (g0, s0) = old(self).entries()[id];
                        let og = spec_as_group(g0);
                        assert forall|x: RemoteId| #[trigger] self.entries().contains_key(x) implies self.child_set(
                            spec_as_group(self.entries()[x].0),
                        ).contains((self.entries()[x].1, x)) by {
                            assert(old(self).entries().contains_key(x));
                            assert(old(self).child_set(spec_as_group(old(self).entries()[x].0)).contains((old(self).entries()[x].1, x)));
                        }
                        assert forall|g: RemoteId, q: KeyView| #[trigger] self.child_set(g).contains(q) implies self.entries().contains_key(q.1)
                            && spec_as_group(self.entries()[q.1].0) == g && self.entries()[q.1].1 == q.0 by {
                            assert(old(self).child_set(g).contains(q));
                            if q.1 == id {
                                assert(q == (s0, id) && g == og);
                            }
                        }
                    }
                }
                r
            },
        }
    }

    /// Applies a change of the sort bytes or the group of object `id`,
    /// moving it in the order; returns whether it moved.
    pub fn update(&mut self, id: RemoteId, key: Key, value: &Value) -> (r: bool)
        requires
            old(self).wf(),
        ensures
            final(self).wf(),
            !old(self).entries().contains_key(id) ==> !r && unchanged(*old(self), *final(self)),
            old(self).entries().contains_key(id) ==> {
                let (g0, s0) = old(self).entries()[id];
                match key {
                    Key::Sort => {
                        let ns = value@.as_bytes();
                        if ns == s0 {
                            !r && unchanged(*old(self), *final(self))
                        } else {
                            &&& final(self).entries() == old(self).entries().insert(id, (g0, ns))
                            &&& sets_after_move(*old(self), *final(self), g0, (s0, id), g0, (ns, id))
                            &&& r == move_result(*old(self), g0, (s0, id), g0, (ns, id))
                        }
                    },
                    Key::Group => {
                        let ng = RemoteId { peer_id: id.peer_id, id: value@.as_id() };
                        if ng == g0 {
                            !r && unchanged(*old(self), *final(self))
                        } else {
                            &&& final(self).entries() == old(self).entries().insert(id, (ng, s0))
                            &&& sets_after_move(*old(self), *final(self), g0, (s0, id), ng, (s0, id))
                            &&& r == move_result(*old(self), g0, (s0, id), ng, (s0, id))
                        }
                    },
                    _ => !r && unchanged(*old(self), *final(self)),
                }
            },
            order_after_update(*old(self), *final(self), id, key, value@),
            mirrors(*old(self)) ==> mirrors(*final(self)),
    {
        let o = match self.objects.remove(&id) {
            Some(o) => o,
            None => {
                proof {
                    assert(self.entries() =~= old(self).entries());
                }
                return false;
            },
        };
        let ghost ov = (o.group, o.sort@);
        proof {
            assert(old(self).entries()[id] == ov);
        }
        match key {
            Key::Sort => {
                let new = value.as_bytes();
                if compare_bytes(o.sort.as_slice(), new.as_slice()) == Cmp::Equal {
                    self.objects.insert(id, o);
                    proof {
                        assert(self.entries() =~= old(self).entries());
                        assert forall|g: RemoteId| #[trigger] self.child_set(g) == old(self).child_set(g) by {
                            assert(self.child_seq(g) == old(self).child_seq(g));
                        }
                    }
                    return false;
                }
                let group = o.group;
                let old_sort = o.sort;
                self.objects.insert(id, ObjectData { group, sort: copy_bytes(new.as_slice()) });
                let ghost mid = *self;
                proof {
                    assert(self.entries() =~= old(self).entries().insert(id, (group, new@)));
                    assert forall|g: RemoteId| #[trigger] mid.child_set(g) == old(self).child_set(g) by {
                        assert(mid.child_seq(g) == old(self).child_seq(g));
                    }
                }
                let r = self.data_reorder(group, old_sort.as_slice(), group, new.as_slice(), id);
                proof {
                    if mirrors(*old(self)) {
                        lemma_move_mirrors(*old(self), *self, id, group, new@);
                    }
                }
                r
            },
            Key::Group => {
                let new = RemoteId::new(id.peer_id, value.as_id());
                if o.group.same(&new) {
                    self.objects.insert(id, o);
                    proof {
                        assert(self.entries() =~= old(self).entries());
                        assert forall|g: RemoteId| #[trigger] self.child_set(g) == old(self).child_set(g) by {
                            assert(self.child_seq(g) == old(self).child_seq(g));
                        }
                    }
                    return false;
                }
                let old_group = o.group;
                let sort = copy_bytes(o.sort.as_slice());
                self.objects.insert(id, ObjectData { group: new, sort: o.sort });
                let ghost mid = *self;
                proof {
                    assert(self.entries() =~= old(self).entries().insert(id, (new, sort@)));
                    assert forall|g: RemoteId| #[trigger] mid.child_set(g) == old(self).child_set(g) by {
                        assert(mid.child_seq(g) == old(self).child_seq(g));
                    }
                }
                let r = self.data_reorder(old_group, sort.as_slice(), new, sort.as_slice(), id);
                proof {
                    if mirrors(*old(self)) {
                        lemma_move_mirrors(*old(self), *self, id, new, sort@);
                    }
                }
                r
            },
            _ => {
                self.objects.insert(id, o);
                proof {
                    assert(self.entries() =~= old(self).entries());
                    assert forall|g: RemoteId| #[trigger] self.child_set(g) == old(self).child_set(g) by {
                        assert(self.child_seq(g) == old(self).child_seq(g));
                    }
                }
                false
            },
        }
    }

    /// Moves object `id` to key `new_sort` of group `new_group`; returns
    /// whether it moved.
    pub fn reorder(&mut self, new_group: RemoteId, new_sort: &[u8], id: RemoteId) -> (r: bool)
        requires
            old(self).wf(),
        ensures
            final(self).wf(),
            !old(self).entries().contains_key(id) ==> !r && unchanged(*old(self), *final(self)),
            old(self).entries().contains_key(id) ==> {
                let (g0, s0) = old(self).entries()[id];
                &&& final(self).entries() == old(self).entries().insert(id, (new_group, new_sort@))
                &&& sets_after_move(*old(self), *final(self), g0, (s0, id), new_group, (new_sort@, id))
                &&& r == move_result(*old(self), g0, (s0, id), new_group, (new_sort@, id))
            },
            mirrors(*old(self)) ==> mirrors(*final(self)),
            mirrors(*old(self)) && old(self).entries().contains_key(id) ==> final(self).child_set(
                spec_as_group(new_group),
            ).contains((new_sort@, id)),
    {
        let o = match self.objects.remove(&id) {
            Some(o) => o,
            None => {
                proof {
                    assert(self.entries() =~= old(self).entries());
                }
                return false;
            },
        };
        self.objects.insert(id, ObjectData { group: new_group, sort: copy_bytes(new_sort) });
        let ghost mid = *self;
        proof {
            assert(self.entries() =~= old(self).entries().insert(id, (new_group, new_sort@)));
            assert forall|g: RemoteId| #[trigger] mid.child_set(g) == old(self).child_set(g) by {
                assert(mid.child_seq(g) == old(self).child_seq(g));
            }
        }
        let r = self.data_reorder(o.group, o.sort.as_slice(), new_group, new_sort, id);
        proof {
            if mirrors(*old(self)) {
                lemma_move_mirrors(*old(self), *self, id, new_group, new_sort@);
                assert(self.entries().contains_key(id));
            }
        }
        r
    }

    /// Whether group `group` has no children.
    pub fn is_empty(&self, group: RemoteId) -> (r: bool)
        requires
            self.wf(),
        ensures
            r == (self.child_seq(spec_as_group(group)).len() == 0),
    {
        let g = as_group(group);
        match self.children.get(&g) {
            Some(set) => set.is_empty(),
            None => true,
        }
    }

    /// The number of children of group `group`.
    pub fn child_count(&self, group: RemoteId) -> (r: usize)
        requires
            self.wf(),
        ensures
            r == self.child_seq(spec_as_group(group)).len(),
    {
        let g = as_group(group);
        match self.children.get(&g) {
            Some(set) => set.len(),
            None => 0,
        }
    }

    /// The children of group `group`, in order.
    pub fn iter(&self, group: RemoteId) -> (r: Vec<RemoteId>)
        requires
            self.wf(),
        ensures
            r@ == self.child_seq(spec_as_group(group)).map_values(|k: KeyView| k.1),
            r@ == self.kids(spec_as_group(group)),
    {
        proof {
            self.lemma_kids(spec_as_group(group));
        }
        let g = as_group(group);
        match self.children.get(&g) {
            Some(set) => set.ids(),
            None => {
                let r: Vec<RemoteId> = Vec::new();
                assert(r@ =~= Seq::<KeyView>::empty().map_values(|k: KeyView| k.1));
                r
            },
        }
    }

    /// Adds the objects `objects` in turn.
    pub fn extend(&mut self, objects: &[Object])
        requires
            old(self).wf(),
        ensures
            final(self).wf(),
            final(self).entries() == entries_after(
                old(self).entries(),
                objects@.map_values(|o: Object| o@),
            ),
            forall|g: RemoteId, x: KeyView| #[trigger]
                final(self).child_set(g).contains(x) <==> old(self).child_set(g).contains(x)
                    || added_key(objects@.map_values(|o: Object| o@), g, x),
    {
        let ghost objs = objects@.map_values(|o: Object| o@);
        let mut i: usize = 0;
        while i < objects.len()
            invariant
                0 <= i <= objects@.len(),
                objs == objects@.map_values(|o: Object| o@),
                self.wf(),
                self.entries() == entries_after(old(self).entries(), objs.take(i as int)),
                forall|g: RemoteId, x: KeyView| #[trigger]
                    self.child_set(g).contains(x) <==> old(self).child_set(g).contains(x)
                        || added_key(objs.take(i as int), g, x),
            decreases objects@.len() - i,
        {
            let ghost before = *self;
            self.insert(&objects[i]);
            proof {
                let o = objs[i as int];
                assert(objects@[i as int]@ == o);
                let t = objs.take(i as int);
                let t2 = objs.take(i + 1);
                assert(t2.drop_last() =~= t);
                assert(t2.last() == o);
                assert forall|g: RemoteId, x: KeyView| #[trigger]
                    self.child_set(g).contains(x) <==> old(self).child_set(g).contains(x)
                        || added_key(t2, g, x) by {
                    if added_key(t, g, x) {
                        let j = choose|j: int|
                            0 <= j < t.len() && ordered(t[j]) && spec_as_group(
                                #[trigger] t[j].group,
                            ) == g && x == (t[j].sort, t[j].id);
                        assert(t2[j] == t[j]);
                    }
                    if added_key(t2, g, x) {
                        let j = choose|j: int|
                            0 <= j < t2.len() && ordered(t2[j]) && spec_as_group(
                                #[trigger] t2[j].group,
                            ) == g && x == (t2[j].sort, t2[j].id);
                        if j < i {
                            assert(t[j] == t2[j]);
                        }
                    }
                    if ordered(o) && spec_as_group(o.group) == g && x == (o.sort, o.id) {
                        assert(t2[i as int] == o);
                    }
                }
            }
            i = i + 1;
        }
        proof {
            assert(objs.take(i as int) =~= objs);
        }
    }

    /// Keeps only the groups, children and objects that belong to peers
    /// that `keep` accepts; groups left empty are dropped.
    pub fn retain<F: Fn(PeerId) -> bool>(&mut self, keep: &F)
        requires
            old(self).wf(),
            forall|p: PeerId| keep.requires((p,)),
        ensures
            final(self).wf(),
            forall|g: RemoteId, x: KeyView| #[trigger]
                final(self).child_set(g).contains(x) ==> old(self).child_set(g).contains(x)
                    && keep.ensures((g.peer_id,), true) && keep.ensures((x.1.peer_id,), true),
            forall|g: RemoteId, x: KeyView| #[trigger]
                old(self).child_set(g).contains(x) && !final(self).child_set(g).contains(x)
                    ==> keep.ensures((g.peer_id,), false) || keep.ensures((x.1.peer_id,), false),
            forall|k: RemoteId| #[trigger]
                final(self).entries().contains_key(k) ==> old(self).entries().contains_key(k)
                    && final(self).entries()[k] == old(self).entries()[k] && keep.ensures(
                    (k.peer_id,),
                    true,
                ),
            forall|k: RemoteId| #[trigger]
                old(self).entries().contains_key(k) && !final(self).entries().contains_key(k)
                    ==> keep.ensures((k.peer_id,), false),
    {
        let groups = self.children.keys();
        proof {
            assert forall|a: int| 0 <= a < groups@.len() implies self.children@.contains_key(
                #[trigger] groups@[a],
            ) by {
                assert(groups@.contains(groups@[a]));
            }
        }
        let mut i: usize = 0;
        while i < groups.len()
            invariant
                0 <= i <= groups@.len(),
                self.wf(),
                old(self).wf(),
                forall|p: PeerId| keep.requires((p,)),
                self.objects == old(self).objects,
                forall|a: int, b: int| 0 <= a < b < groups@.len() ==> groups@[a] != groups@[b],
                forall|k: RemoteId| #[trigger]
                    groups@.contains(k) <==> old(self).children@.contains_key(k),
                forall|g: RemoteId| #[trigger]
                    self.children@.contains_key(g) ==> old(self).children@.contains_key(g),
                forall|a: int|
                    i <= a < groups@.len() ==> self.child_seq(#[trigger] groups@[a])
                        == old(self).child_seq(groups@[a]),
                forall|a: int, x: KeyView|
                    0 <= a < i ==> (#[trigger] self.child_set(groups@[a]).contains(x)
                        ==> old(self).child_set(groups@[a]).contains(x) && keep.ensures(
                        (groups@[a].peer_id,),
                        true,
                    ) && keep.ensures((x.1.peer_id,), true)),
                forall|a: int, x: KeyView|
                    0 <= a < i ==> (old(self).child_set(groups@[a]).contains(x)
                        && !#[trigger] self.child_set(groups@[a]).contains(x) ==> keep.ensures(
                        (groups@[a].peer_id,),
                        false,
                    ) || keep.ensures((x.1.peer_id,), false)),
            decreases groups@.len() - i,
        {
            let g = groups[i];
            let ghost before = *self;
            proof {
                assert(groups@.contains(g));
                assert(old(self).children@.contains_key(g));
                assert(old(self).child_seq(g).len() > 0);
                assert(before.child_seq(g) == old(self).child_seq(g));
            }
            let mut set = match self.children.remove(&g) {
                Some(set) => set,
                None => {
                    proof {
                        assert(before.children@.contains_key(g));
                    }
                    Children::new()
                },
            };
            let ghost old_seq = set@;
            proof {
                assert(old_seq == old(self).child_seq(g));
            }
            let kept = keep(g.peer_id);
            let ghost mut after: Seq<KeyView> = Seq::empty();
            if kept {
                set.retain_peers(keep);
                proof {
                    after = set@;
                }
                if !set.is_empty() {
                    self.children.insert(g, set);
                }
            }
            proof {
                if self.children@.contains_key(g) {
                    assert(self.child_seq(g) == after);
                } else {
                    assert(self.child_seq(g) == Seq::<KeyView>::empty());
                }
                assert(kept ==> forall|x: KeyView| #[trigger] after.contains(x) ==> old_seq.contains(x) && keep.ensures((x.1.peer_id,), true));
                assert(kept ==> forall|x: KeyView| #[trigger] old_seq.contains(x) && !after.contains(x) ==> keep.ensures((x.1.peer_id,), false));
                assert(!kept ==> after.len() == 0);
                assert(self.children@.contains_key(g) ==> kept);
            }
            proof {
                assert forall|a: int|
                    i < a < groups@.len() implies self.child_seq(#[trigger] groups@[a])
                        == old(self).child_seq(groups@[a]) by {
                    assert(groups@[a] != g);
                    assert(before.child_seq(groups@[a]) == old(self).child_seq(groups@[a]));
                }
                assert forall|a: int, x: KeyView|
                    0 <= a < i + 1 && #[trigger] self.child_set(groups@[a]).contains(x)
                        implies old(self).child_set(groups@[a]).contains(x) && keep.ensures(
                        (groups@[a].peer_id,),
                        true,
                    ) && keep.ensures((x.1.peer_id,), true) by {
                    if a < i {
                        assert(groups@[a] != g);
                        assert(self.child_seq(groups@[a]) == before.child_seq(groups@[a]));
                        assert(before.child_set(groups@[a]).contains(x) == self.child_set(groups@[a]).contains(x));
                    } else {
                        assert(self.child_seq(g).contains(x));
                        assert(self.children@.contains_key(g));
                        assert(kept);
                        assert(after.contains(x));
                        assert(old_seq.contains(x));
                    }
                }
                assert forall|a: int, x: KeyView|
                    0 <= a < i + 1 && old(self).child_set(groups@[a]).contains(x)
                        && !#[trigger] self.child_set(groups@[a]).contains(x) implies keep.ensures(
                        (groups@[a].peer_id,),
                        false,
                    ) || keep.ensures((x.1.peer_id,), false) by {
                    if a < i {
                        assert(groups@[a] != g);
                        assert(self.child_seq(groups@[a]) == before.child_seq(groups@[a]));
                        assert(before.child_set(groups@[a]).contains(x) == self.child_set(groups@[a]).contains(x));
                    } else {
                        if kept {
                            assert(old_seq.contains(x));
                            assert(!self.child_seq(g).contains(x));
                            assert(!after.contains(x));
                        }
                    }
                }
            }
            i = i + 1;
        }
        let ghost mid = *self;
        self.objects.retain_peers(keep);
        proof {
            assert forall|g: RemoteId| #[trigger] self.child_set(g) == mid.child_set(g) by {
                assert(self.child_seq(g) == mid.child_seq(g));
            }
            assert forall|g: RemoteId, x: KeyView| #[trigger]
                self.child_set(g).contains(x) implies old(self).child_set(g).contains(x)
                    && keep.ensures((g.peer_id,), true) && keep.ensures((x.1.peer_id,), true) by {
                assert(self.children@.contains_key(g));
                assert(groups@.contains(g));
                let a = choose|a: int| 0 <= a < groups@.len() && groups@[a] == g;
                assert(self.child_set(groups@[a]).contains(x));
            }
            assert forall|g: RemoteId, x: KeyView| #[trigger]
                old(self).child_set(g).contains(x) && !self.child_set(g).contains(x) implies keep.ensures(
                (g.peer_id,),
                false,
            ) || keep.ensures((x.1.peer_id,), false) by {
                assert(old(self).children@.contains_key(g));
                assert(groups@.contains(g));
                let a = choose|a: int| 0 <= a < groups@.len() && groups@[a] == g;
                assert(!self.child_set(groups@[a]).contains(x));
            }
        }
    }

    /// The hierarchy of groups: for each group, its children in key order.
    pub closed spec fn tree(&self) -> Tree {
        groups_of(self.children@)
    }

    /// The identifiers of the children of `g`, in order, as the walk sees
    /// them.
    pub open spec fn kids(&self, g: RemoteId) -> Seq<RemoteId> {
        kids_in(self.tree(), g)
    }

    /// The children of a group, seen through its keys.
    pub proof fn lemma_kids(&self, g: RemoteId)
        ensures
            self.kids(g) == self.child_seq(g).map_values(|k: KeyView| k.1),
    {
        assert(self.kids(g) =~= self.child_seq(g).map_values(|k: KeyView| k.1));
    }

    /// All objects below group `id`, depth first: each object comes before
    /// the objects of its own group, siblings in key order, and an object
    /// reached twice is listed only the first time.
    pub fn walk_from(&self, id: RemoteId) -> (r: Vec<RemoteId>)
        requires
            self.wf(),
            acyclic_from(self.tree(), id),
        ensures
            forall|n: nat| #[trigger] bounded(self.tree(), self.kids(id), n) ==> r@ == dedup_onto(
                Seq::empty(),
                walk_list(self.tree(), self.kids(id), n, false),
            ),
            forall|i: int, j: int| 0 <= i < j < r@.len() ==> r@[i] != r@[j],
            forall|n: nat, x: RemoteId| #![trigger bounded(self.tree(), self.kids(id), n), r@.contains(x)]
                bounded(self.tree(), self.kids(id), n) ==> (r@.contains(x) <==> walk_list(self.tree(), self.kids(id), n, false).contains(x)),
    {
        walk_groups(&self.children, id, false)
    }

    /// All objects of the session, depth first from the root group.
    pub fn walk(&self) -> (r: Vec<RemoteId>)
        requires
            self.wf(),
            acyclic_from(self.tree(), zero_id()),
        ensures
            forall|n: nat| #[trigger] bounded(self.tree(), self.kids(zero_id()), n) ==> r@ == dedup_onto(
                Seq::empty(),
                walk_list(self.tree(), self.kids(zero_id()), n, false),
            ),
            forall|i: int, j: int| 0 <= i < j < r@.len() ==> r@[i] != r@[j],
    {
        self.walk_from(RemoteId::zero())
    }

    /// The walk from the back: like `walk_from`, with the children of every
    /// group taken in reverse key order.
    pub fn walk_back_from(&self, id: RemoteId) -> (r: Vec<RemoteId>)
        requires
            self.wf(),
            acyclic_from(self.tree(), id),
        ensures
            forall|n: nat| #[trigger] bounded(self.tree(), self.kids(id), n) ==> r@ == dedup_onto(
                Seq::empty(),
                walk_list(self.tree(), self.kids(id).reverse(), n, true),
            ),
            forall|i: int, j: int| 0 <= i < j < r@.len() ==> r@[i] != r@[j],
            forall|n: nat, x: RemoteId| #![trigger bounded(self.tree(), self.kids(id), n), r@.contains(x)]
                bounded(self.tree(), self.kids(id), n) ==> (r@.contains(x) <==> walk_list(self.tree(), self.kids(id).reverse(), n, true).contains(x)),
    {
        walk_groups(&self.children, id, true)
    }

    /// All objects of the session from the back.
    pub fn walk_back(&self) -> (r: Vec<RemoteId>)
        requires
            self.wf(),
            acyclic_from(self.tree(), zero_id()),
        ensures
            forall|n: nat| #[trigger] bounded(self.tree(), self.kids(zero_id()), n) ==> r@ == dedup_onto(
                Seq::empty(),
                walk_list(self.tree(), self.kids(zero_id()).reverse(), n, true),
            ),
            forall|i: int, j: int| 0 <= i < j < r@.len() ==> r@[i] != r@[j],
    {
        self.walk_back_from(RemoteId::zero())
    }
}

} // verus!
