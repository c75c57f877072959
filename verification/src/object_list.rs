use vstd::prelude::*;

use crate::drag_over::{Drag, DragOver};
use crate::hierarchy::HierarchyRef;
use crate::ids::RemoteId;
use crate::objects::{KindView, ObjectView, ObjectsRef};

verus! {

/// One row of the object list of a group.
#[derive(Debug, Clone, Copy)]
pub struct ListRow {
    /// The object shown.
    pub id: RemoteId,
    /// Whether a drop zone goes above this row: it is the first row.
    pub first: bool,
    /// Whether this is the last row.
    pub last: bool,
    /// Whether the drop zone above this row is the active one.
    pub above_active: bool,
    /// Where dragging over this row drops: into it for groups, below it
    /// otherwise.
    pub drag: DragOver,
    /// Whether this row is the selected object.
    pub selected: bool,
    /// Whether the object's own list is shown below it: an expanded group
    /// with children, or one that a drop goes into.
    pub show_children: bool,
    /// What the object's own list is told about a drop into its end.
    pub drop_into_last: Option<RemoteId>,
    /// Whether the drop zone below this row is the active one.
    pub below_active: bool,
}

/// The object list of a group: its rows, and the drop zone shown where it
/// has none.
#[derive(Debug)]
pub struct ListView {
    pub rows: Vec<ListRow>,
    pub empty_drop: Option<DragOver>,
}

/// The children of group `group` that are known objects, in order.
pub open spec fn shown_ids(order: HierarchyRef, objs: Map<RemoteId, ObjectView>, group: RemoteId) -> Seq<
    RemoteId,
> {
    order.kids(group).filter(|id: RemoteId| objs.contains_key(id))
}

/// Whether object `o` is an expanded group.
pub open spec fn spec_expanded(o: ObjectView) -> bool {
    o.kind matches KindView::Group { expanded, .. } && expanded
}

/// The row for the `i`-th of the objects `ids` shown in group `group`.
pub open spec fn spec_row(
    order: HierarchyRef,
    objs: Map<RemoteId, ObjectView>,
    group: RemoteId,
    ids: Seq<RemoteId>,
    i: int,
    selected: Option<RemoteId>,
    drag_over: Option<DragOver>,
    drop_into_last: Option<RemoteId>,
) -> ListRow {
    let id = ids[i];
    let o = objs[id];
    let last = i == ids.len() - 1;
    let into_here = drag_over == Some(DragOver { drag: Drag::Into, group, target: id });
    let child_drop = if into_here {
        Some(group)
    } else {
        None
    };
    ListRow {
        id,
        first: i == 0,
        last,
        above_active: i == 0 && drag_over == Some(DragOver { drag: Drag::Above, group, target: id }),
        drag: if o.kind is Group {
            DragOver { drag: Drag::Into, group, target: id }
        } else {
            DragOver { drag: Drag::Below, group, target: id }
        },
        selected: selected == Some(id),
        show_children: spec_expanded(o) && (child_drop is Some || order.kids(id).len() > 0),
        drop_into_last: child_drop,
        below_active: (last && drop_into_last is Some) || drag_over == Some(
            DragOver { drag: Drag::Below, group, target: id },
        ),
    }
}

/// Each row shows the object at its place: it is first or last by its
/// position; dragging over it drops into it where it is a group and below it
/// otherwise; it is selected where its object is; a drop into it is passed
/// on to its own list; the drop zone above is active only on the first row
/// when the drag is above it, and the one below when the drag is below it
/// or, on the last row, when a drop into the list's end was passed down;
/// its children show where it is an expanded group with a drop into it or
/// with children.
pub proof fn law_row_fields(
    order: HierarchyRef,
    objs: Map<RemoteId, ObjectView>,
    group: RemoteId,
    ids: Seq<RemoteId>,
    i: int,
    selected: Option<RemoteId>,
    drag_over: Option<DragOver>,
    drop_into_last: Option<RemoteId>,
)
    requires
        0 <= i < ids.len(),
        objs.contains_key(ids[i]),
    ensures
        ({
            let r = spec_row(order, objs, group, ids, i, selected, drag_over, drop_into_last);
            let id = ids[i];
            let into_here = drag_over == Some(DragOver { drag: Drag::Into, group, target: id });
            &&& r.id == id
            &&& r.first <==> i == 0
            &&& r.last <==> i + 1 == ids.len()
            &&& r.drag.group == group && r.drag.target == id
            &&& r.drag.drag == Drag::Into <==> objs[id].kind is Group
            &&& r.drag.drag != Drag::Into ==> r.drag.drag == Drag::Below
            &&& r.selected <==> selected == Some(id)
            &&& r.drop_into_last == if into_here {
                Some(group)
            } else {
                None
            }
            &&& r.above_active <==> i == 0 && drag_over == Some(
                DragOver { drag: Drag::Above, group, target: id },
            )
            &&& r.below_active <==> (i + 1 == ids.len() && drop_into_last is Some) || drag_over
                == Some(DragOver { drag: Drag::Below, group, target: id })
            &&& r.show_children <==> (objs[id].kind matches KindView::Group { expanded, .. }
                && expanded) && (into_here || order.kids(id).len() > 0)
        }),
{
}

fn same_id(a: Option<RemoteId>, b: RemoteId) -> (r: bool)
    ensures
        r == (a == Some(b)),
{
    match a {
        Some(x) => x.same(&b),
        None => false,
    }
}

fn same_drag(a: Option<DragOver>, b: DragOver) -> (r: bool)
    ensures
        r == (a == Some(b)),
{
    match a {
        Some(x) => x.same(&b),
        None => false,
    }
}

/// The object list of group `group`: a row for each child that is a known
/// object, in order, and where there is none but a drop goes into the end
/// of this list, the zone for it.
pub fn object_list(
    order: &HierarchyRef,
    objects: &ObjectsRef,
    group: RemoteId,
    selected: Option<RemoteId>,
    drag_over: Option<DragOver>,
    drop_into_last: Option<RemoteId>,
) -> (r: ListView)
    requires
        order.wf(),
        objects.wf(),
    ensures
        ({
            let ids = shown_ids(*order, objects@, group);
            &&& r.rows@.len() == ids.len()
            &&& forall|i: int|
                0 <= i < ids.len() ==> #[trigger] r.rows@[i] == spec_row(
                    *order,
                    objects@,
                    group,
                    ids,
                    i,
                    selected,
                    drag_over,
                    drop_into_last,
                )
            &&& r.empty_drop == if ids.len() == 0 && drop_into_last is Some {
                Some(DragOver { drag: Drag::Into, group, target: drop_into_last->0 })
            } else {
                None
            }
        }),
{
    let kids = order.iter(group);
    let ghost p = |id: RemoteId| objects@.contains_key(id);
    let mut ids: Vec<RemoteId> = Vec::new();
    let mut i: usize = 0;
    proof {
        reveal(Seq::filter);
        assert(kids@.take(0) =~= Seq::<RemoteId>::empty());
    }
    while i < kids.len()
        invariant
            0 <= i <= kids@.len(),
            objects.wf(),
            p == (|id: RemoteId| objects@.contains_key(id)),
            ids@ == kids@.take(i as int).filter(p),
        decreases kids@.len() - i,
    {
        let id = kids[i];
        proof {
            assert(kids@.take(i + 1).drop_last() =~= kids@.take(i as int));
            assert(kids@.take(i + 1).last() == id);
            reveal(Seq::filter);
        }
        if objects.get(id).is_some() {
            ids.push(id);
        }
        i = i + 1;
    }
    proof {
        assert(kids@.take(i as int) =~= kids@);
    }
    let ghost all = ids@;
    let mut rows: Vec<ListRow> = Vec::new();
    let mut n: usize = 0;
    while n < ids.len()
        invariant
            0 <= n <= ids@.len(),
            all == ids@,
            all == shown_ids(*order, objects@, group),
            order.wf(),
            objects.wf(),
            rows@.len() == n,
            forall|j: int|
                0 <= j < n ==> #[trigger] rows@[j] == spec_row(
                    *order,
                    objects@,
                    group,
                    all,
                    j,
                    selected,
                    drag_over,
                    drop_into_last,
                ),
        decreases ids@.len() - n,
    {
        let id = ids[n];
        proof {
            let p = |x: RemoteId| objects@.contains_key(x);
            order.kids(group).lemma_filter_pred(p, n as int);
        }
        let o = objects.get(id).unwrap();
        let last = n + 1 == ids.len();
        let into_here = same_drag(drag_over, DragOver::into(group, id));
        let child_drop = if into_here {
            Some(group)
        } else {
            None
        };
        let row = ListRow {
            id,
            first: n == 0,
            last,
            above_active: n == 0 && same_drag(drag_over, DragOver::above(group, id)),
            drag: if o.is_group() {
                DragOver::into(group, id)
            } else {
                DragOver::below(group, id)
            },
            selected: same_id(selected, id),
            show_children: o.is_expanded() && (child_drop.is_some() || !order.is_empty(id)),
            drop_into_last: child_drop,
            below_active: (last && drop_into_last.is_some()) || same_drag(
                drag_over,
                DragOver::below(group, id),
            ),
        };
        rows.push(row);
        n = n + 1;
    }
    let empty_drop = if ids.len() == 0 {
        match drop_into_last {
            Some(target) => Some(DragOver::into(group, target)),
            None => None,
        }
    } else {
        None
    };
    ListView { rows, empty_drop }
}

} // verus!
