use vstd::prelude::*;

use crate::children::{other_than, without_id, Children};
use crate::id_map::IdMap;
use crate::ids::{as_group, spec_as_group, zero_id, PeerId, RemoteId};
use crate::objects::Object;
use crate::order::key_set;
use crate::sort_key::{KeyView, SortKey};
use crate::values::copy_bytes;
use crate::walk::{acyclic_from, bounded, dedup_onto, groups_of, kids_in, walk_groups, walk_list, Tree};

verus! {

/// The keys of `s` whose object's peer `keep` accepts.
pub open spec fn kept_keys(s: Seq<KeyView>, keep: spec_fn(PeerId) -> bool) -> Seq<KeyView> {
    s.filter(|k: KeyView| keep(k.1.peer_id))
}

/// The hierarchy after `retain`: the groups of accepted peers, each with
/// the children of accepted peers, and no group left empty.
pub open spec fn retained(t: Tree, keep: spec_fn(PeerId) -> bool) -> Tree {
    Map::new(
        |g: RemoteId| t.contains_key(g) && keep(g.peer_id) && kept_keys(t[g], keep).len() > 0,
        |g: RemoteId| kept_keys(t[g], keep),
    )
}

/// The number of children of group `g` that `retain` drops.
pub open spec fn dropped_in(t: Tree, keep: spec_fn(PeerId) -> bool, g: RemoteId) -> nat {
    if keep(g.peer_id) {
        (t[g].len() - kept_keys(t[g], keep).len()) as nat
    } else {
        t[g].len()
    }
}

/// The number of children that `retain` drops over all groups.
pub open spec fn dropped(t: Tree, keep: spec_fn(PeerId) -> bool) -> nat {
    t.dom().fold(0nat, |acc: nat, g: RemoteId| acc + dropped_in(t, keep, g))
}

/// The hierarchy with object `id` removed from every group; the groups stay.
pub open spec fn id_removed(t: Tree, id: RemoteId) -> Tree {
    Map::new(|g: RemoteId| t.contains_key(g), |g: RemoteId| without_id(t[g], id))
}

/// The number of keys of object `id` in group `g`.
pub open spec fn removed_in(t: Tree, id: RemoteId, g: RemoteId) -> nat {
    (t[g].len() - without_id(t[g], id).len()) as nat
}

/// The number of keys of object `id` over all groups.
pub open spec fn removed_count(t: Tree, id: RemoteId) -> nat {
    t.dom().fold(0nat, |acc: nat, g: RemoteId| acc + removed_in(t, id, g))
}

/// The number of keys over all groups.
pub open spec fn key_total(t: Tree) -> nat {
    t.dom().fold(0nat, |acc: nat, g: RemoteId| acc + t[g].len())
}

/// Over the groups of `s`, the keys left after object `id` is removed and
/// the keys removed add up to the keys there were.
proof fn lemma_count_split(t: Tree, id: RemoteId, s: Set<RemoteId>)
    requires
        s.finite(),
        forall|g: RemoteId| #[trigger] s.contains(g) ==> t.contains_key(g),
    ensures
        s.fold(0nat, |acc: nat, g: RemoteId| acc + id_removed(t, id)[g].len()) + s.fold(
            0nat,
            |acc: nat, g: RemoteId| acc + removed_in(t, id, g),
        ) == s.fold(0nat, |acc: nat, g: RemoteId| acc + t[g].len()),
    decreases s.len(),
{
    let f1 = |acc: nat, g: RemoteId| acc + id_removed(t, id)[g].len();
    let f2 = |acc: nat, g: RemoteId| acc + removed_in(t, id, g);
    let f3 = |acc: nat, g: RemoteId| acc + t[g].len();
    assert(vstd::set::fold::is_fun_commutative(f1));
    assert(vstd::set::fold::is_fun_commutative(f2));
    assert(vstd::set::fold::is_fun_commutative(f3));
    if s.len() == 0 {
        assert(s =~= Set::<RemoteId>::empty());
        vstd::set::fold::lemma_fold_empty(0nat, f1);
        vstd::set::fold::lemma_fold_empty(0nat, f2);
        vstd::set::fold::lemma_fold_empty(0nat, f3);
    } else {
        let x = s.choose();
        let r = s.remove(x);
        lemma_count_split(t, id, r);
        assert(r.insert(x) =~= s);
        vstd::set::fold::lemma_fold_insert(r, 0nat, f1, x);
        vstd::set::fold::lemma_fold_insert(r, 0nat, f2, x);
        vstd::set::fold::lemma_fold_insert(r, 0nat, f3, x);
        t[x].lemma_filter_len(other_than(id));
        assert(id_removed(t, id)[x] == without_id(t[x], id));
    }
}

/// Removing an object from every group takes away exactly the keys it had:
/// the keys left and the keys removed add up to the keys there were. So a
/// count that matched the keys before `remove` matches them after it.
pub proof fn law_remove_keeps_count(t: Tree, id: RemoteId)
    requires
        t.dom().finite(),
    ensures
        key_total(id_removed(t, id)) + removed_count(t, id) == key_total(t),
        forall|g: RemoteId, k: KeyView| id_removed(t, id).contains_key(g)
            && #[trigger] id_removed(t, id)[g].contains(k) ==> k.1 != id,
{
    lemma_count_split(t, id, t.dom());
    assert(id_removed(t, id).dom() =~= t.dom());
    assert forall|g: RemoteId, k: KeyView| id_removed(t, id).contains_key(g)
        && #[trigger] id_removed(t, id)[g].contains(k) implies k.1 != id by {
        let s0 = t[g];
        s0.lemma_filter_contains_rev(other_than(id), k);
        let i = choose|i: int| 0 <= i < s0.filter(other_than(id)).len() && s0.filter(other_than(id))[i] == k;
        s0.lemma_filter_pred(other_than(id), i);
    }
}

/// The groups of a session and their children, sorted by key, with a count
/// of the keys added that sizes the walk's bookkeeping.
pub struct HierarchyRef {
    children: IdMap<Children>,
    len: usize,
}

impl HierarchyRef {
    /// For each group, its children in key order.
    pub closed spec fn tree(&self) -> Tree {
        groups_of(self.children@)
    }

    /// The count of keys kept for sizing the walk.
    pub closed spec fn len_value(&self) -> nat {
        self.len as nat
    }

    /// The children of group `g`.
    pub open spec fn child_set(&self, g: RemoteId) -> Set<KeyView> {
        if self.tree().contains_key(g) {
            key_set(self.tree()[g])
        } else {
            Set::empty()
        }
    }

    /// The identifiers of the children of `g`, in key order.
    pub open spec fn kids(&self, g: RemoteId) -> Seq<RemoteId> {
        kids_in(self.tree(), g)
    }

    /// Every group's children are strictly increasing.
    pub closed spec fn wf(&self) -> bool {
        &&& self.children.wf()
        &&& forall|g: RemoteId| #[trigger] self.children@.contains_key(g) ==> self.children@[g].wf()
    }

    /// A hierarchy holds finitely many groups.
    pub proof fn lemma_finite(&self)
        ensures
            self.tree().dom().finite(),
    {
        self.children.lemma_finite();
        assert(self.tree().dom() =~= self.children@.dom());
    }

    /// The children of every group come in increasing key order.
    pub proof fn lemma_sorted(&self, g: RemoteId)
        requires
            self.wf(),
            self.tree().contains_key(g),
        ensures
            crate::children::sorted(self.tree()[g]),
    {
    }

    pub fn new() -> (r: HierarchyRef)
        ensures
            r.wf(),
            r.tree() == Map::<RemoteId, Seq<KeyView>>::empty(),
            r.len_value() == 0,
    {
        let r = HierarchyRef { children: IdMap::new(), len: 0 };
        assert(r.tree() =~= Map::<RemoteId, Seq<KeyView>>::empty());
        r
    }

    /// Whether group `group` has no children.
    pub fn is_empty(&self, group: RemoteId) -> (r: bool)
        requires
            self.wf(),
        ensures
            r == (self.kids(group).len() == 0),
    {
        match self.children.get(&group) {
            Some(set) => set.is_empty(),
            None => true,
        }
    }

    /// The children of group `group`, in key order.
    pub fn iter(&self, group: RemoteId) -> (r: Vec<RemoteId>)
        requires
            self.wf(),
        ensures
            r@ == self.kids(group),
    {
        match self.children.get(&group) {
            Some(set) => set.ids(),
            None => {
                let r: Vec<RemoteId> = Vec::new();
                assert(r@ =~= self.kids(group));
                r
            },
        }
    }

    /// Removes object `id` from all groups: every key of it leaves every
    /// group, the groups themselves stay, and the count goes down by the
    /// number of keys removed, not below zero. (The group and sort key name
    /// the place the caller knows of; the removal does not depend on them.)
    pub fn remove(&mut self, _group: RemoteId, _sort: &[u8], id: RemoteId)
        requires
            old(self).wf(),
        ensures
            final(self).wf(),
            final(self).tree() == id_removed(old(self).tree(), id),
            forall|g: RemoteId| #[trigger]
                final(self).child_set(g) == old(self).child_set(g).filter(other_than(id)),
            final(self).len_value() == if removed_count(old(self).tree(), id) <= old(self).len_value() {
                (old(self).len_value() - removed_count(old(self).tree(), id)) as nat
            } else {
                0
            },
    {
        let groups = self.children.keys();
        let ghost t0 = self.tree();
        let ghost len0 = self.len as nat;
        let ghost f = |acc: nat, g: RemoteId| acc + removed_in(t0, id, g);
        let ghost total = removed_count(t0, id);
        let ghost rt = id_removed(t0, id);
        let ghost mut acc: nat = 0;
        proof {
            broadcast use vstd::seq_lib::seq_to_set_is_finite;
            assert(t0.dom() =~= groups@.to_set());
            assert(groups@.skip(0) =~= groups@);
            assert(vstd::set::fold::is_fun_commutative(f));
            assert(groups@.take(0) =~= Seq::<RemoteId>::empty());
        }
        let mut i: usize = 0;
        while i < groups.len()
            invariant
                0 <= i <= groups@.len(),
                self.wf(),
                f == (|acc: nat, g: RemoteId| acc + removed_in(t0, id, g)),
                rt == id_removed(t0, id),
                total == removed_count(t0, id),
                vstd::set::fold::is_fun_commutative(f),
                forall|a: int, b: int| 0 <= a < b < groups@.len() ==> groups@[a] != groups@[b],
                forall|k: RemoteId| #[trigger] groups@.contains(k) <==> t0.contains_key(k),
                acc + groups@.skip(i as int).to_set().fold(0nat, f) == total,
                self.len as nat == if acc <= len0 { (len0 - acc) as nat } else { 0 },
                forall|g: RemoteId| #[trigger] self.tree().contains_key(g) <==> t0.contains_key(g),
                forall|g: RemoteId| #[trigger]
                    self.tree().contains_key(g) ==> self.tree()[g] == if groups@.take(
                        i as int,
                    ).contains(g) {
                        rt[g]
                    } else {
                        t0[g]
                    },
            decreases groups@.len() - i,
        {
            let g = groups[i];
            let ghost before = *self;
            let ghost rest = groups@.skip(i + 1).to_set();
            proof {
                broadcast use vstd::seq_lib::seq_to_set_is_finite;
                assert(groups@.contains(g));
                assert(!groups@.take(i as int).contains(g)) by {
                    if groups@.take(i as int).contains(g) {
                        let k = choose|k: int| 0 <= k < i && groups@.take(i as int)[k] == g;
                        assert(groups@[k] == groups@[i as int]);
                    }
                }
                assert(groups@.skip(i as int).to_set() =~= rest.insert(g)) by {
                    assert forall|x: RemoteId| groups@.skip(i as int).to_set().contains(x) <==> rest.insert(g).contains(x) by {
                        let here = groups@.skip(i as int);
                        if here.contains(x) {
                            let k = choose|k: int| 0 <= k < here.len() && here[k] == x;
                            if k > 0 {
                                assert(groups@.skip(i + 1)[k - 1] == x);
                            }
                        }
                        let tail = groups@.skip(i + 1);
                        if tail.contains(x) {
                            let k = choose|k: int| 0 <= k < tail.len() && tail[k] == x;
                            assert(groups@.skip(i as int)[k + 1] == x);
                        }
                        assert(groups@.skip(i as int)[0] == g);
                    }
                }
                assert(!rest.contains(g)) by {
                    let tail = groups@.skip(i + 1);
                    if tail.contains(g) {
                        let k = choose|k: int| 0 <= k < tail.len() && tail[k] == g;
                        assert(groups@[i + 1 + k] == g);
                    }
                }
                vstd::set::fold::lemma_fold_insert(rest, 0nat, f, g);
                assert(groups@.take(i + 1) =~= groups@.take(i as int).push(g));
            }
            let mut set = match self.children.remove(&g) {
                Some(set) => set,
                None => {
                    proof {
                        assert(before.tree().contains_key(g));
                    }
                    return;
                },
            };
            proof {
                assert(before.tree().contains_key(g));
                assert(before.tree()[g] == t0[g]);
                assert(before.tree()[g] == set@);
            }
            let before_len = set.len();
            set.remove_id(id);
            proof {
                assert(set@ == without_id(t0[g], id));
                t0[g].lemma_filter_len(other_than(id));
                assert(removed_in(t0, id, g) == before_len - set@.len());
                acc = acc + removed_in(t0, id, g);
            }
            self.len = self.len.saturating_sub(before_len - set.len());
            self.children.insert(g, set);
            proof {
                assert forall|h: RemoteId| #[trigger]
                    self.tree().contains_key(h) <==> t0.contains_key(h) by {
                    if h != g {
                        assert(self.tree().contains_key(h) == before.tree().contains_key(h));
                    }
                }
                assert forall|h: RemoteId| #[trigger]
                    self.tree().contains_key(h) implies self.tree()[h] == if groups@.take(i + 1).contains(h) {
                        rt[h]
                    } else {
                        t0[h]
                    } by {
                    if h != g {
                        assert(groups@.take(i + 1).contains(h) == groups@.take(i as int).contains(h));
                        assert(before.tree().contains_key(h));
                        assert(self.tree()[h] == before.tree()[h]);
                    } else {
                        assert(groups@.take(i + 1)[i as int] == g);
                        assert(groups@.take(i + 1).contains(h));
                    }
                }
            }
            i = i + 1;
        }
        proof {
            assert(groups@.take(i as int) =~= groups@);
            assert(groups@.skip(i as int).to_set() =~= Set::<RemoteId>::empty());
            vstd::set::fold::lemma_fold_empty(0nat, f);
            assert(self.tree() =~= rt) by {
                assert forall|h: RemoteId| #[trigger] self.tree().contains_key(h) implies self.tree()[h] == rt[h] by {
                    assert(groups@.contains(h));
                }
            }
            assert forall|g: RemoteId| #[trigger]
                self.child_set(g) == old(self).child_set(g).filter(other_than(id)) by {
                broadcast use vstd::seq_lib::group_filter_ensures;
                if t0.contains_key(g) {
                    assert forall|x: KeyView| #[trigger] self.child_set(g).contains(x) <==> old(self).child_set(g).filter(other_than(id)).contains(x) by {
                        let s0 = t0[g];
                        let p = other_than(id);
                        assert(self.tree()[g] == s0.filter(p));
                        if s0.contains(x) && p(x) {
                            let k = choose|k: int| 0 <= k < s0.len() && s0[k] == x;
                            s0.lemma_filter_contains(p, k);
                        }
                        if s0.filter(p).contains(x) {
                            s0.lemma_filter_contains_rev(p, x);
                            let k = choose|k: int| 0 <= k < s0.filter(p).len() && s0.filter(p)[k] == x;
                            s0.lemma_filter_pred(p, k);
                        }
                    }
                }
                assert(self.child_set(g) =~= old(self).child_set(g).filter(other_than(id)));
            }
        }
    }

    /// Adds key `(sort, id)` to group `as_group(group)`, creating the group
    /// where needed; returns whether the key is new.
    fn add_key(&mut self, group: RemoteId, sort: Vec<u8>, id: RemoteId) -> (r: bool)
        requires
            old(self).wf(),
        ensures
            final(self).wf(),
            final(self).len_value() == old(self).len_value(),
            final(self).tree().dom() == old(self).tree().dom().insert(spec_as_group(group)),
            r == !old(self).child_set(spec_as_group(group)).contains((sort@, id)),
            forall|g: RemoteId| #[trigger]
                final(self).child_set(g) == if g == spec_as_group(group) {
                    old(self).child_set(g).insert((sort@, id))
                } else {
                    old(self).child_set(g)
                },
    {
        let g = as_group(group);
        let ghost k = (sort@, id);
        let mut set = match self.children.remove(&g) {
            Some(set) => set,
            None => {
                let s = Children::new();
                assert(key_set(s@) =~= old(self).child_set(g));
                s
            },
        };
        let ghost before = set@;
        let inserted = set.insert(SortKey { sort, id });
        let ghost after = set@;
        self.children.insert(g, set);
        proof {
            assert(self.tree().dom() =~= old(self).tree().dom().insert(g));
            assert(key_set(before) == old(self).child_set(g));
            assert forall|h: RemoteId| #[trigger]
                self.child_set(h) == if h == g {
                    old(self).child_set(h).insert(k)
                } else {
                    old(self).child_set(h)
                } by {
                if h == g {
                    assert(self.tree()[h] == after);
                    assert(self.child_set(h) =~= old(self).child_set(h).insert(k));
                } else if self.tree().contains_key(h) {
                    assert(self.tree()[h] == old(self).tree()[h]);
                }
            }
        }
        inserted
    }

    /// Adds an object at its group and sort key, counting it where the key
    /// is new; an object without sort bytes is left out.
    pub fn insert(&mut self, object: &Object)
        requires
            old(self).wf(),
        ensures
            final(self).wf(),
            object@.sort.len() == 0 ==> final(self).tree() == old(self).tree()
                && final(self).len_value() == old(self).len_value(),
            object@.sort.len() > 0 ==> {
                let g = spec_as_group(object@.group);
                let k = (object@.sort, object.id);
                &&& final(self).tree().dom() == old(self).tree().dom().insert(g)
                &&& forall|h: RemoteId| #[trigger]
                    final(self).child_set(h) == if h == g {
                        old(self).child_set(h).insert(k)
                    } else {
                        old(self).child_set(h)
                    }
                &&& final(self).len_value() == if old(self).child_set(g).contains(k) {
                    old(self).len_value()
                } else if old(self).len_value() < usize::MAX {
                    old(self).len_value() + 1
                } else {
                    old(self).len_value()
                }
            },
    {
        let sort = object.sort.get();
        if sort.len() == 0 {
            return;
        }
        let group = *object.group.get();
        let added = self.add_key(group, copy_bytes(sort.as_slice()), object.id);
        let ghost mid = *self;
        if added {
            self.len = self.len.saturating_add(1);
        }
        proof {
            assert forall|h: RemoteId| #[trigger] self.child_set(h) == mid.child_set(h) by {}
        }
    }

    /// Moves object `id` to key `new_sort` of group `as_group(new_group)`:
    /// it first leaves every group, as `remove` does, then joins the new one
    /// and is counted there.
    pub fn reorder(
        &mut self,
        old_group: RemoteId,
        old_sort: &[u8],
        new_group: RemoteId,
        new_sort: &[u8],
        id: RemoteId,
    )
        requires
            old(self).wf(),
        ensures
            final(self).wf(),
            ({
                let ng = spec_as_group(new_group);
                let nk = (new_sort@, id);
                let rc = removed_count(old(self).tree(), id);
                let mid = if rc <= old(self).len_value() {
                    (old(self).len_value() - rc) as nat
                } else {
                    0
                };
                &&& final(self).tree().dom() == old(self).tree().dom().insert(ng)
                &&& forall|h: RemoteId| #[trigger]
                    final(self).child_set(h) == if h == ng {
                        old(self).child_set(h).filter(other_than(id)).insert(nk)
                    } else {
                        old(self).child_set(h).filter(other_than(id))
                    }
                &&& final(self).len_value() == if mid < usize::MAX {
                    mid + 1
                } else {
                    mid
                }
            }),
    {
        self.remove(old_group, old_sort, id);
        let ghost first = *self;
        proof {
            assert(!first.child_set(spec_as_group(new_group)).contains((new_sort@, id)));
            assert(first.tree().dom() =~= old(self).tree().dom());
        }
        let added = self.add_key(new_group, copy_bytes(new_sort), id);
        let ghost mid = *self;
        if added {
            self.len = self.len.saturating_add(1);
        }
        proof {
            assert forall|h: RemoteId| #[trigger] self.child_set(h) == mid.child_set(h) by {}
            assert forall|h: RemoteId| #[trigger] mid.child_set(h) == first.child_set(h) || h == spec_as_group(new_group) by {}
        }
    }

    /// Adds the objects `objects` in turn.
    pub fn extend(&mut self, objects: &[Object])
        requires
            old(self).wf(),
        ensures
            final(self).wf(),
            forall|g: RemoteId, x: KeyView| #[trigger]
                final(self).child_set(g).contains(x) <==> old(self).child_set(g).contains(x)
                    || exists|i: int|
                    0 <= i < objects@.len() && (#[trigger] objects@[i])@.sort.len() > 0
                        && spec_as_group(objects@[i]@.group) == g && x == (
                        objects@[i]@.sort,
                        objects@[i].id,
                    ),
    {
        let mut i: usize = 0;
        while i < objects.len()
            invariant
                0 <= i <= objects@.len(),
                self.wf(),
                forall|g: RemoteId, x: KeyView| #[trigger]
                    self.child_set(g).contains(x) <==> old(self).child_set(g).contains(x)
                        || exists|j: int|
                        0 <= j < i && (#[trigger] objects@[j])@.sort.len() > 0 && spec_as_group(
                            objects@[j]@.group,
                        ) == g && x == (objects@[j]@.sort, objects@[j].id),
            decreases objects@.len() - i,
        {
            let ghost before = *self;
            self.insert(&objects[i]);
            proof {
                let o = objects@[i as int];
                assert forall|g: RemoteId, x: KeyView| #[trigger]
                    self.child_set(g).contains(x) <==> old(self).child_set(g).contains(x)
                        || exists|j: int|
                        0 <= j < i + 1 && (#[trigger] objects@[j])@.sort.len() > 0
                            && spec_as_group(objects@[j]@.group) == g && x == (
                            objects@[j]@.sort,
                            objects@[j].id,
                        ) by {
                    let here = o@.sort.len() > 0 && spec_as_group(o@.group) == g && x == (o@.sort, o.id);
                    let earlier = exists|j: int|
                        0 <= j < i && (#[trigger] objects@[j])@.sort.len() > 0 && spec_as_group(
                            objects@[j]@.group,
                        ) == g && x == (objects@[j]@.sort, objects@[j].id);
                    let upto = exists|j: int|
                        0 <= j < i + 1 && (#[trigger] objects@[j])@.sort.len() > 0 && spec_as_group(
                            objects@[j]@.group,
                        ) == g && x == (objects@[j]@.sort, objects@[j].id);
                    assert(before.child_set(g).contains(x) <==> old(self).child_set(g).contains(x) || earlier);
                    assert(self.child_set(g).contains(x) <==> before.child_set(g).contains(x) || here);
                    if here {
                        assert(objects@[i as int] == o);
                        assert(upto);
                    }
                    if upto {
                        let j = choose|j: int|
                            0 <= j < i + 1 && (#[trigger] objects@[j])@.sort.len() > 0
                                && spec_as_group(objects@[j]@.group) == g && x == (
                                objects@[j]@.sort,
                                objects@[j].id,
                            );
                        if j == i {
                            assert(here);
                        } else {
                            assert(earlier);
                        }
                    }
                }
            }
            i = i + 1;
        }
    }

    /// All objects below group `id`, depth first: each object comes before
    /// the objects of its own group, siblings in key order, and an object
    /// reached twice is listed only the first time.
    pub fn walk_from(&self, id: RemoteId) -> (r: Vec<RemoteId>)
        requires
            self.wf(),
            acyclic_from(self.tree(), id),
        ensures
            forall|n: nat| #[trigger] bounded(self.tree(), self.kids(id), n) ==> r@ == dedup_onto(
                Seq::empty(),
                walk_list(self.tree(), self.kids(id), n, false),
            ),
            forall|i: int, j: int| 0 <= i < j < r@.len() ==> r@[i] != r@[j],
    {
        walk_groups(&self.children, id, false)
    }

    /// All objects of the session, depth first from the root group.
    pub fn walk(&self) -> (r: Vec<RemoteId>)
        requires
            self.wf(),
            acyclic_from(self.tree(), zero_id()),
        ensures
            forall|n: nat| #[trigger] bounded(self.tree(), self.kids(zero_id()), n) ==> r@ == dedup_onto(
                Seq::empty(),
                walk_list(self.tree(), self.kids(zero_id()), n, false),
            ),
            forall|i: int, j: int| 0 <= i < j < r@.len() ==> r@[i] != r@[j],
    {
        self.walk_from(RemoteId::zero())
    }

    /// The walk from the back: like `walk_from`, with the children of every
    /// group taken in reverse key order.
    pub fn walk_back_from(&self, id: RemoteId) -> (r: Vec<RemoteId>)
        requires
            self.wf(),
            acyclic_from(self.tree(), id),
        ensures
            forall|n: nat| #[trigger] bounded(self.tree(), self.kids(id), n) ==> r@ == dedup_onto(
                Seq::empty(),
                walk_list(self.tree(), self.kids(id).reverse(), n, true),
            ),
            forall|i: int, j: int| 0 <= i < j < r@.len() ==> r@[i] != r@[j],
    {
        walk_groups(&self.children, id, true)
    }

    /// Keeps only the groups of peers that `keep` accepts, and in them the
    /// children of accepted peers; groups left empty are dropped and the
    /// count goes down by the number of children dropped.
    pub fn retain<F: Fn(PeerId) -> bool>(&mut self, keep: &F)
        requires
            old(self).wf(),
            forall|p: PeerId| keep.requires((p,)),
            forall|p: PeerId, a: bool, b: bool|
                keep.ensures((p,), a) && keep.ensures((p,), b) ==> a == b,
            dropped(old(self).tree(), |p: PeerId| keep.ensures((p,), true)) <= old(self).len_value(),
        ensures
            final(self).wf(),
            final(self).tree() == retained(old(self).tree(), |p: PeerId| keep.ensures((p,), true)),
            final(self).len_value() == old(self).len_value() - dropped(
                old(self).tree(),
                |p: PeerId| keep.ensures((p,), true),
            ),
    {
        let groups = self.children.keys();
        let ghost t0 = self.tree();
        let ghost kp = |p: PeerId| keep.ensures((p,), true);
        let ghost f = |acc: nat, g: RemoteId| acc + dropped_in(t0, kp, g);
        let ghost c = (self.len - dropped(t0, kp)) as nat;
        let ghost rt = retained(t0, kp);
        proof {
            broadcast use vstd::seq_lib::seq_to_set_is_finite;
            assert(t0.dom() =~= groups@.to_set());
            assert(groups@.skip(0) =~= groups@);
            assert(vstd::set::fold::is_fun_commutative(f));
            assert(groups@.take(0) =~= Seq::<RemoteId>::empty());
        }
        let mut i: usize = 0;
        while i < groups.len()
            invariant
                0 <= i <= groups@.len(),
                self.wf(),
                forall|p: PeerId| keep.requires((p,)),
                forall|p: PeerId, a: bool, b: bool|
                    keep.ensures((p,), a) && keep.ensures((p,), b) ==> a == b,
                kp == (|p: PeerId| keep.ensures((p,), true)),
                f == (|acc: nat, g: RemoteId| acc + dropped_in(t0, kp, g)),
                rt == retained(t0, kp),
                vstd::set::fold::is_fun_commutative(f),
                forall|a: int, b: int| 0 <= a < b < groups@.len() ==> groups@[a] != groups@[b],
                forall|k: RemoteId| #[trigger] groups@.contains(k) <==> t0.contains_key(k),
                self.len as nat == c + groups@.skip(i as int).to_set().fold(0nat, f),
                forall|g: RemoteId| #[trigger]
                    self.tree().contains_key(g) <==> if groups@.take(i as int).contains(g) {
                        rt.contains_key(g)
                    } else {
                        t0.contains_key(g)
                    },
                forall|g: RemoteId| #[trigger]
                    self.tree().contains_key(g) ==> self.tree()[g] == if groups@.take(
                        i as int,
                    ).contains(g) {
                        rt[g]
                    } else {
                        t0[g]
                    },
            decreases groups@.len() - i,
        {
            let g = groups[i];
            let ghost before = *self;
            let ghost rest = groups@.skip(i + 1).to_set();
            proof {
                broadcast use vstd::seq_lib::seq_to_set_is_finite;
                assert(groups@.contains(g));
                assert(!groups@.take(i as int).contains(g)) by {
                    if groups@.take(i as int).contains(g) {
                        let k = choose|k: int| 0 <= k < i && groups@.take(i as int)[k] == g;
                        assert(groups@[k] == groups@[i as int]);
                    }
                }
                assert(groups@.skip(i as int).to_set() =~= rest.insert(g)) by {
                    assert forall|x: RemoteId| groups@.skip(i as int).to_set().contains(x) <==> rest.insert(g).contains(x) by {
                        let here = groups@.skip(i as int);
                        if here.contains(x) {
                            let k = choose|k: int| 0 <= k < here.len() && here[k] == x;
                            if k > 0 {
                                assert(groups@.skip(i + 1)[k - 1] == x);
                            }
                        }
                        let tail = groups@.skip(i + 1);
                        if tail.contains(x) {
                            let k = choose|k: int| 0 <= k < tail.len() && tail[k] == x;
                            assert(groups@.skip(i as int)[k + 1] == x);
                        }
                        assert(groups@.skip(i as int)[0] == g);
                    }
                }
                assert(!rest.contains(g)) by {
                    let tail = groups@.skip(i + 1);
                    if tail.contains(g) {
                        let k = choose|k: int| 0 <= k < tail.len() && tail[k] == g;
                        assert(groups@[i + 1 + k] == g);
                    }
                }
                vstd::set::fold::lemma_fold_insert(rest, 0nat, f, g);
                assert(groups@.take(i + 1) =~= groups@.take(i as int).push(g));
            }
            let mut set = match self.children.remove(&g) {
                Some(set) => set,
                None => {
                    proof {
                        assert(before.tree().contains_key(g));
                    }
                    return;
                },
            };
            proof {
                assert(before.tree().contains_key(g));
                assert(before.tree()[g] == t0[g]);
                assert(before.tree()[g] == set@);
            }
            let ghost mid = *self;
            if !keep(g.peer_id) {
                proof {
                    assert(!kp(g.peer_id));
                    assert(dropped_in(t0, kp, g) == set@.len());
                }
                self.len = self.len - set.len();
                proof {
                    assert(!rt.contains_key(g));
                }
            } else {
                let before_len = set.len();
                set.filter_peers(keep);
                proof {
                    assert(kp(g.peer_id));
                    assert((|k: KeyView| kp(k.1.peer_id)) =~= (|k: KeyView| keep.ensures((k.1.peer_id,), true)));
                    assert(set@ == kept_keys(t0[g], kp));
                    t0[g].lemma_filter_len(|k: KeyView| kp(k.1.peer_id));
                    assert(dropped_in(t0, kp, g) == before_len - set@.len());
                }
                self.len = self.len - (before_len - set.len());
                if !set.is_empty() {
                    self.children.insert(g, set);
                }
            }
            proof {
                assert forall|h: RemoteId| #[trigger]
                    self.tree().contains_key(h) <==> if groups@.take(i + 1).contains(h) {
                        rt.contains_key(h)
                    } else {
                        t0.contains_key(h)
                    } by {
                    if h != g {
                        assert(groups@.take(i + 1).contains(h) == groups@.take(i as int).contains(h));
                        assert(self.tree().contains_key(h) == before.tree().contains_key(h));
                    } else {
                        assert(groups@.take(i + 1)[i as int] == g);
                        assert(groups@.take(i + 1).contains(h));
                    }
                }
                assert forall|h: RemoteId| #[trigger]
                    self.tree().contains_key(h) implies self.tree()[h] == if groups@.take(i + 1).contains(h) {
                        rt[h]
                    } else {
                        t0[h]
                    } by {
                    if h != g {
                        assert(groups@.take(i + 1).contains(h) == groups@.take(i as int).contains(h));
                        assert(before.tree().contains_key(h));
                        assert(self.tree()[h] == before.tree()[h]);
                    } else {
                        assert(groups@.take(i + 1)[i as int] == g);
                        assert(groups@.take(i + 1).contains(h));
                    }
                }
            }
            i = i + 1;
        }
        proof {
            assert(groups@.take(i as int) =~= groups@);
            assert(groups@.skip(i as int).to_set() =~= Set::<RemoteId>::empty());
            vstd::set::fold::lemma_fold_empty(0nat, f);
            assert(self.tree() =~= rt) by {
                assert forall|h: RemoteId| #[trigger] self.tree().contains_key(h) <==> rt.contains_key(h) by {
                    if rt.contains_key(h) {
                        assert(t0.contains_key(h));
                        assert(groups@.contains(h));
                    }
                }
            }
        }
    }
}

} // verus!
