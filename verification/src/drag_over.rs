use vstd::prelude::*;

use crate::ids::RemoteId;
use crate::objects::{ObjectView, ObjectsRef};
use crate::hierarchy::HierarchyRef;
use crate::values::copy_bytes;

verus! {

/// Where a dragged object is dropped relative to the target.
#[derive(Debug, Clone, Copy, PartialEq, Eq, Structural)]
pub enum Drag {
    Above,
    Into,
    Below,
}

/// A drop position while dragging an object in the object list.
#[derive(Debug, Clone, Copy)]
pub struct DragOver {
    pub drag: Drag,
    pub group: RemoteId,
    pub target: RemoteId,
}

/// How the sort bytes of a dropped object are to be made: after some sort
/// bytes, before them, between two of them, or from an object's identifier.
#[derive(Debug)]
pub enum SortPlan {
    After(Vec<u8>),
    Before(Vec<u8>),
    Between(Vec<u8>, Vec<u8>),
    FromId(RemoteId),
}

pub enum SortPlanView {
    After(Seq<u8>),
    Before(Seq<u8>),
    Between(Seq<u8>, Seq<u8>),
    FromId(RemoteId),
}

impl View for SortPlan {
    type V = SortPlanView;

    open spec fn view(&self) -> SortPlanView {
        match self {
            SortPlan::After(a) => SortPlanView::After(a@),
            SortPlan::Before(b) => SortPlanView::Before(b@),
            SortPlan::Between(a, b) => SortPlanView::Between(a@, b@),
            SortPlan::FromId(id) => SortPlanView::FromId(*id),
        }
    }
}

/// The item just before the last occurrence of `t` in `s`, if any.
#[verifier::opaque]
pub open spec fn item_before(s: Seq<RemoteId>, t: RemoteId) -> Option<RemoteId> {
    if exists|i: int| 0 <= i < s.len() && s[i] == t {
        let i = choose|i: int|
            0 <= i < s.len() && s[i] == t && forall|j: int| i < j < s.len() ==> s[j] != t;
        if i > 0 {
            Some(s[i - 1])
        } else {
            None
        }
    } else {
        None
    }
}

/// The item just after the first occurrence of `t` in `s`, if any.
#[verifier::opaque]
pub open spec fn item_after(s: Seq<RemoteId>, t: RemoteId) -> Option<RemoteId> {
    if exists|i: int| 0 <= i < s.len() && s[i] == t {
        let i = choose|i: int| 0 <= i < s.len() && s[i] == t && forall|j: int| 0 <= j < i ==> s[j] != t;
        if i + 1 < s.len() {
            Some(s[i + 1])
        } else {
            None
        }
    } else {
        None
    }
}

/// The sort bytes of object `id`, where it is known.
pub open spec fn sort_of(objs: Map<RemoteId, ObjectView>, id: Option<RemoteId>) -> Option<Seq<u8>> {
    match id {
        Some(i) => if objs.contains_key(i) {
            Some(objs[i].sort)
        } else {
            None
        },
        None => None,
    }
}

/// The plan for the sort bytes of an object dropped at `d`, given the
/// objects and the children of the target and of the drop group, or `None`
/// where the target is unknown.
pub open spec fn spec_new_sort(
    d: DragOver,
    objs: Map<RemoteId, ObjectView>,
    target_kids: Seq<RemoteId>,
    group_kids: Seq<RemoteId>,
) -> Option<SortPlanView> {
    if !objs.contains_key(d.target) {
        None
    } else {
        let target = objs[d.target];
        Some(
            match d.drag {
                Drag::Into => {
                    let last = if target_kids.len() > 0 {
                        Some(target_kids.last())
                    } else {
                        None
                    };
                    match sort_of(objs, last) {
                        Some(s) => SortPlanView::After(s),
                        None => SortPlanView::FromId(target.id),
                    }
                },
                Drag::Above => match sort_of(objs, item_before(group_kids, d.target)) {
                    Some(p) => SortPlanView::Between(p, target.sort),
                    None => SortPlanView::Before(target.sort),
                },
                Drag::Below => match sort_of(objs, item_after(group_kids, d.target)) {
                    Some(n) => SortPlanView::Between(target.sort, n),
                    None => SortPlanView::After(target.sort),
                },
            },
        )
    }
}

/// The item before the last place `i` of `t` in `s` is the one at `i - 1`.
proof fn lemma_item_before_at(s: Seq<RemoteId>, t: RemoteId, i: int)
    requires
        0 <= i < s.len(),
        s[i] == t,
        forall|j: int| i < j < s.len() ==> s[j] != t,
    ensures
        item_before(s, t) == if i > 0 {
            Some(s[i - 1])
        } else {
            None
        },
{
    reveal(item_before);
    let c = choose|c: int| 0 <= c < s.len() && s[c] == t && forall|j: int| c < j < s.len() ==> s[j] != t;
    assert(c == i) by {
        if c < i {
            assert(s[i] != t);
        }
        if c > i {
            assert(s[c] != t);
        }
    }
}

/// The item after the first place `i` of `t` in `s` is the one at `i + 1`.
proof fn lemma_item_after_at(s: Seq<RemoteId>, t: RemoteId, i: int)
    requires
        0 <= i < s.len(),
        s[i] == t,
        forall|j: int| 0 <= j < i ==> s[j] != t,
    ensures
        item_after(s, t) == if i + 1 < s.len() {
            Some(s[i + 1])
        } else {
            None
        },
{
    reveal(item_after);
    let c = choose|c: int| 0 <= c < s.len() && s[c] == t && forall|j: int| 0 <= j < c ==> s[j] != t;
    assert(c == i) by {
        if c < i {
            assert(s[c] != t);
        }
        if c > i {
            assert(s[i] != t);
        }
    }
}

/// An unknown target gives no plan.
pub proof fn law_new_sort_unknown(
    d: DragOver,
    objs: Map<RemoteId, ObjectView>,
    target_kids: Seq<RemoteId>,
    group_kids: Seq<RemoteId>,
)
    requires
        !objs.contains_key(d.target),
    ensures
        spec_new_sort(d, objs, target_kids, group_kids) is None,
{
}

/// Dropped into a known target with children, an object goes after the
/// last of them in key order; with no children, its bytes come from the
/// target's identifier.
pub proof fn law_new_sort_into(
    d: DragOver,
    objs: Map<RemoteId, ObjectView>,
    target_kids: Seq<RemoteId>,
    group_kids: Seq<RemoteId>,
)
    requires
        objs.contains_key(d.target),
        d.drag == Drag::Into,
    ensures
        target_kids.len() > 0 && objs.contains_key(target_kids[target_kids.len() - 1]) ==> spec_new_sort(
            d,
            objs,
            target_kids,
            group_kids,
        ) == Some(SortPlanView::After(objs[target_kids[target_kids.len() - 1]].sort)),
        target_kids.len() == 0 ==> spec_new_sort(d, objs, target_kids, group_kids) == Some(
            SortPlanView::FromId(objs[d.target].id),
        ),
{
}

/// Dropped above a known target whose last place in the group is `i`, an
/// object goes between the child just before it and the target, or before
/// the target where it comes first; where the target is not in the group,
/// before the target.
pub proof fn law_new_sort_above(
    d: DragOver,
    objs: Map<RemoteId, ObjectView>,
    target_kids: Seq<RemoteId>,
    group_kids: Seq<RemoteId>,
    i: int,
)
    requires
        objs.contains_key(d.target),
        d.drag == Drag::Above,
    ensures
        0 <= i < group_kids.len() && group_kids[i] == d.target && (forall|j: int|
            i < j < group_kids.len() ==> group_kids[j] != d.target) ==> spec_new_sort(
            d,
            objs,
            target_kids,
            group_kids,
        ) == Some(
            if i > 0 && objs.contains_key(group_kids[i - 1]) {
                SortPlanView::Between(objs[group_kids[i - 1]].sort, objs[d.target].sort)
            } else {
                SortPlanView::Before(objs[d.target].sort)
            },
        ),
        !group_kids.contains(d.target) ==> spec_new_sort(d, objs, target_kids, group_kids) == Some(
            SortPlanView::Before(objs[d.target].sort),
        ),
{
    reveal(item_before);
    if 0 <= i < group_kids.len() && group_kids[i] == d.target && (forall|j: int|
        i < j < group_kids.len() ==> group_kids[j] != d.target) {
        lemma_item_before_at(group_kids, d.target, i);
    }
}

/// Dropped below a known target whose first place in the group is `i`, an
/// object goes between the target and the child just after it, or after
/// the target where it comes last; where the target is not in the group,
/// after the target.
pub proof fn law_new_sort_below(
    d: DragOver,
    objs: Map<RemoteId, ObjectView>,
    target_kids: Seq<RemoteId>,
    group_kids: Seq<RemoteId>,
    i: int,
)
    requires
        objs.contains_key(d.target),
        d.drag == Drag::Below,
    ensures
        0 <= i < group_kids.len() && group_kids[i] == d.target && (forall|j: int|
            0 <= j < i ==> group_kids[j] != d.target) ==> spec_new_sort(
            d,
            objs,
            target_kids,
            group_kids,
        ) == Some(
            if i + 1 < group_kids.len() && objs.contains_key(group_kids[i + 1]) {
                SortPlanView::Between(objs[d.target].sort, objs[group_kids[i + 1]].sort)
            } else {
                SortPlanView::After(objs[d.target].sort)
            },
        ),
        !group_kids.contains(d.target) ==> spec_new_sort(d, objs, target_kids, group_kids) == Some(
            SortPlanView::After(objs[d.target].sort),
        ),
{
    reveal(item_after);
    if 0 <= i < group_kids.len() && group_kids[i] == d.target && (forall|j: int|
        0 <= j < i ==> group_kids[j] != d.target) {
        lemma_item_after_at(group_kids, d.target, i);
    }
}

/// The item just before the last occurrence of `t` in `s`.
fn neighbor_before(s: &Vec<RemoteId>, t: RemoteId) -> (r: Option<RemoteId>)
    ensures
        r == item_before(s@, t),
{
    reveal(item_before);
    let mut i: usize = s.len();
    while i > 0
        invariant
            0 <= i <= s@.len(),
            forall|j: int| i <= j < s@.len() ==> s@[j] != t,
        decreases i,
    {
        i = i - 1;
        if s[i].same(&t) {
            proof {
                reveal(item_before);
                assert(exists|j: int| 0 <= j < s@.len() && s@[j] == t);
                let c = choose|c: int|
                    0 <= c < s@.len() && s@[c] == t && forall|j: int| c < j < s@.len() ==> s@[j] != t;
                assert(c == i) by {
                    if c < i {
                        assert(s@[i as int] != t);
                    }
                    if c > i {
                        assert(s@[c] != t);
                    }
                }
            }
            if i > 0 {
                return Some(s[i - 1]);
            } else {
                return None;
            }
        }
    }
    None
}

/// The item just after the first occurrence of `t` in `s`.
fn neighbor_after(s: &Vec<RemoteId>, t: RemoteId) -> (r: Option<RemoteId>)
    ensures
        r == item_after(s@, t),
{
    reveal(item_after);
    let mut i: usize = 0;
    while i < s.len()
        invariant
            0 <= i <= s@.len(),
            forall|j: int| 0 <= j < i ==> s@[j] != t,
        decreases s@.len() - i,
    {
        if s[i].same(&t) {
            proof {
                reveal(item_after);
                assert(exists|j: int| 0 <= j < s@.len() && s@[j] == t);
                let c = choose|c: int|
                    0 <= c < s@.len() && s@[c] == t && forall|j: int| 0 <= j < c ==> s@[j] != t;
                assert(c == i) by {
                    if c < i {
                        assert(s@[c] != t);
                    }
                    if c > i {
                        assert(s@[i as int] != t);
                    }
                }
            }
            if i + 1 < s.len() {
                return Some(s[i + 1]);
            } else {
                return None;
            }
        }
        i = i + 1;
    }
    None
}

/// The sort bytes of object `id`, where it is known.
fn sort_lookup(objects: &ObjectsRef, id: Option<RemoteId>) -> (r: Option<Vec<u8>>)
    requires
        objects.wf(),
    ensures
        r is Some <==> sort_of(objects@, id) is Some,
        r matches Some(v) ==> Some(v@) == sort_of(objects@, id),
{
    match id {
        Some(i) => match objects.get(i) {
            Some(o) => Some(copy_bytes(o.sort.get().as_slice())),
            None => None,
        },
        None => None,
    }
}

impl DragOver {
    pub fn above(group: RemoteId, target: RemoteId) -> (r: DragOver)
        ensures
            r == (DragOver { drag: Drag::Above, group, target }),
    {
        DragOver { drag: Drag::Above, group, target }
    }

    pub fn below(group: RemoteId, target: RemoteId) -> (r: DragOver)
        ensures
            r == (DragOver { drag: Drag::Below, group, target }),
    {
        DragOver { drag: Drag::Below, group, target }
    }

    pub fn into(group: RemoteId, target: RemoteId) -> (r: DragOver)
        ensures
            r == (DragOver { drag: Drag::Into, group, target }),
    {
        DragOver { drag: Drag::Into, group, target }
    }

    /// Whether two drop positions are the same.
    pub fn same(&self, other: &DragOver) -> (r: bool)
        ensures
            r == (*self == *other),
    {
        self.drag == other.drag && self.group.same(&other.group) && self.target.same(&other.target)
    }

    /// The group the dragged object ends up in: the target itself when
    /// dropped into it, else the target's group.
    pub fn target_group(&self) -> (r: RemoteId)
        ensures
            r == if self.drag == Drag::Into {
                self.target
            } else {
                self.group
            },
    {
        match self.drag {
            Drag::Into => self.target,
            _ => self.group,
        }
    }

    /// How to make the sort bytes of the object dropped here, or `None`
    /// where the target is unknown.
    pub fn new_sort(self, objects: &ObjectsRef, order: &HierarchyRef) -> (r: Option<SortPlan>)
        requires
            objects.wf(),
            order.wf(),
        ensures
            r is Some <==> spec_new_sort(
                self,
                objects@,
                order.kids(self.target),
                order.kids(self.group),
            ) is Some,
            r matches Some(p) ==> Some(p@) == spec_new_sort(
                self,
                objects@,
                order.kids(self.target),
                order.kids(self.group),
            ),
    {
        let target = match objects.get(self.target) {
            Some(t) => t,
            None => {
                return None;
            },
        };
        let plan = match self.drag {
            Drag::Into => {
                let ids = order.iter(self.target);
                let last = if ids.len() > 0 {
                    Some(ids[ids.len() - 1])
                } else {
                    None
                };
                match sort_lookup(objects, last) {
                    Some(s) => SortPlan::After(s),
                    None => SortPlan::FromId(target.id),
                }
            },
            Drag::Above => {
                let ids = order.iter(self.group);
                match sort_lookup(objects, neighbor_before(&ids, self.target)) {
                    Some(p) => SortPlan::Between(p, copy_bytes(target.sort.get().as_slice())),
                    None => SortPlan::Before(copy_bytes(target.sort.get().as_slice())),
                }
            },
            Drag::Below => {
                let ids = order.iter(self.group);
                match sort_lookup(objects, neighbor_after(&ids, self.target)) {
                    Some(n) => SortPlan::Between(copy_bytes(target.sort.get().as_slice()), n),
                    None => SortPlan::After(copy_bytes(target.sort.get().as_slice())),
                }
            },
        };
        Some(plan)
    }
}

} // verus!
