use mumbler::drag_over::{DragOver, SortPlan};
use mumbler::hierarchy::HierarchyRef;
use mumbler::ids::{Id, PeerId, RemoteId};
use mumbler::objects::{Object, ObjectsRef};
use mumbler::order::OrderRef;
use mumbler::values::{Key, Properties, RemoteObject, Type, Value};

fn rid(p: u32, i: u32) -> RemoteId {
    RemoteId::new(PeerId(p), Id(i))
}

fn object(peer: u32, id: u32, ty: Type, group: u32, sort: Vec<u8>) -> Object {
    let mut p = Properties::new();
    p.insert(Key::Group, Value::Id(Id(group)));
    p.insert(Key::Sort, Value::Bytes(sort));
    Object::new(PeerId(peer), &RemoteObject { id: Id(id), ty, props: p }).unwrap()
}

#[test]
fn insert_orders_children_by_sort_key() {
    let mut order = OrderRef::new();
    assert!(order.insert(&object(1, 1, Type::Token, 0, vec![2])));
    assert!(order.insert(&object(1, 2, Type::Token, 0, vec![1])));
    assert!(order.insert(&object(1, 3, Type::Group, 0, vec![3])));
    assert!(!order.insert(&object(1, 3, Type::Group, 0, vec![3])));
    assert!(!order.insert(&object(1, 4, Type::Room, 0, vec![0])));
    assert_eq!(order.iter(RemoteId::zero()), vec![rid(1, 2), rid(1, 1), rid(1, 3)]);
    assert_eq!(order.child_count(RemoteId::zero()), 3);
    // A group with a zero object id is the root group.
    assert_eq!(order.child_count(rid(7, 0)), 3);
    assert!(order.is_empty(rid(1, 3)));
}

#[test]
fn insert_skips_objects_without_sort_key() {
    let mut order = OrderRef::new();
    assert!(!order.insert(&object(1, 1, Type::Token, 0, vec![])));
    assert!(order.iter(RemoteId::zero()).is_empty());
    assert_eq!(order.child_count(RemoteId::zero()), 0);
    assert!(!order.remove(rid(1, 1)));
}

#[test]
fn remove_then_group_is_dropped() {
    let mut order = OrderRef::new();
    order.insert(&object(1, 1, Type::Group, 0, vec![1]));
    order.insert(&object(1, 2, Type::Token, 1, vec![1]));
    assert!(!order.is_empty(rid(1, 1)));
    assert!(order.remove(rid(1, 2)));
    assert!(order.is_empty(rid(1, 1)));
    assert!(!order.remove(rid(1, 2)));
}

#[test]
fn update_moves_objects() {
    let mut order = OrderRef::new();
    order.insert(&object(1, 1, Type::Group, 0, vec![1]));
    order.insert(&object(1, 2, Type::Token, 0, vec![2]));
    order.insert(&object(1, 3, Type::Token, 0, vec![3]));
    // Move object 3 to the front by its sort bytes.
    assert!(order.update(rid(1, 3), Key::Sort, &Value::Bytes(vec![0])));
    assert_eq!(order.iter(RemoteId::zero()), vec![rid(1, 3), rid(1, 1), rid(1, 2)]);
    // Unchanged sort bytes move nothing.
    assert!(!order.update(rid(1, 3), Key::Sort, &Value::Bytes(vec![0])));
    // Move object 2 into group 1.
    assert!(order.update(rid(1, 2), Key::Group, &Value::Id(Id(1))));
    assert_eq!(order.iter(rid(1, 1)), vec![rid(1, 2)]);
    assert_eq!(order.iter(RemoteId::zero()), vec![rid(1, 3), rid(1, 1)]);
    // Other keys and unknown objects are ignored.
    assert!(!order.update(rid(1, 2), Key::Name, &Value::Empty));
    assert!(!order.update(rid(9, 9), Key::Sort, &Value::Bytes(vec![1])));
}

#[test]
fn reorder_places_object_at_new_key() {
    let mut order = OrderRef::new();
    order.insert(&object(1, 1, Type::Group, 0, vec![1]));
    order.insert(&object(1, 2, Type::Token, 0, vec![2]));
    assert!(order.reorder(rid(1, 1), &[5], rid(1, 2)));
    assert_eq!(order.iter(rid(1, 1)), vec![rid(1, 2)]);
    assert_eq!(order.iter(RemoteId::zero()), vec![rid(1, 1)]);
    // Reordering to the same place still reports a move.
    assert!(order.reorder(rid(1, 1), &[5], rid(1, 2)));
    assert!(!order.reorder(rid(1, 1), &[5], rid(4, 4)));
}

#[test]
fn walk_is_depth_first() {
    let mut order = OrderRef::new();
    order.extend(&[
        object(1, 1, Type::Group, 0, vec![1]),
        object(1, 2, Type::Token, 1, vec![2]),
        object(1, 3, Type::Token, 1, vec![1]),
        object(1, 4, Type::Token, 0, vec![2]),
        object(1, 5, Type::Group, 1, vec![3]),
        object(1, 6, Type::Token, 5, vec![1]),
    ]);
    assert_eq!(
        order.walk(),
        vec![rid(1, 1), rid(1, 3), rid(1, 2), rid(1, 5), rid(1, 6), rid(1, 4)]
    );
    assert_eq!(
        order.walk_back(),
        vec![rid(1, 4), rid(1, 1), rid(1, 5), rid(1, 6), rid(1, 2), rid(1, 3)]
    );
    assert_eq!(order.walk_from(rid(1, 5)), vec![rid(1, 6)]);
    assert_eq!(order.walk_from(rid(1, 6)), Vec::<RemoteId>::new());
}

#[test]
fn walk_lists_an_object_once() {
    let mut order = OrderRef::new();
    order.insert(&object(1, 1, Type::Group, 0, vec![1]));
    order.insert(&object(1, 2, Type::Group, 0, vec![2]));
    order.insert(&object(1, 3, Type::Token, 1, vec![1]));
    // A second insert under another group leaves a stale key behind.
    order.insert(&object(1, 3, Type::Token, 2, vec![1]));
    assert_eq!(order.walk(), vec![rid(1, 1), rid(1, 3), rid(1, 2)]);
}

#[test]
fn retain_drops_peers() {
    let mut order = OrderRef::new();
    order.insert(&object(1, 1, Type::Token, 0, vec![1]));
    order.insert(&object(2, 1, Type::Token, 0, vec![2]));
    order.insert(&object(2, 2, Type::Group, 0, vec![3]));
    order.insert(&object(2, 3, Type::Token, 2, vec![1]));
    order.retain(&|p: PeerId| p.0 != 2);
    assert_eq!(order.iter(RemoteId::zero()), vec![rid(1, 1)]);
    assert!(order.is_empty(rid(2, 2)));
    assert!(!order.remove(rid(2, 3)));
}

fn objects(list: Vec<Object>) -> ObjectsRef {
    let mut o = ObjectsRef::new();
    for x in list {
        o.insert(x);
    }
    o
}

#[test]
fn drag_plans() {
    let list = vec![
        object(1, 1, Type::Group, 0, vec![10]),
        object(1, 2, Type::Token, 0, vec![20]),
        object(1, 3, Type::Token, 0, vec![30]),
        object(1, 4, Type::Token, 1, vec![5]),
    ];
    let mut order = HierarchyRef::new();
    order.extend(&list);
    let objs = objects(list);
    let root = RemoteId::zero();

    match DragOver::above(root, rid(1, 2)).new_sort(&objs, &order) {
        Some(SortPlan::Between(a, b)) => {
            assert_eq!(a, vec![10]);
            assert_eq!(b, vec![20]);
        }
        _ => panic!("expected between"),
    }
    match DragOver::above(root, rid(1, 1)).new_sort(&objs, &order) {
        Some(SortPlan::Before(b)) => assert_eq!(b, vec![10]),
        _ => panic!("expected before"),
    }
    match DragOver::below(root, rid(1, 2)).new_sort(&objs, &order) {
        Some(SortPlan::Between(a, b)) => {
            assert_eq!(a, vec![20]);
            assert_eq!(b, vec![30]);
        }
        _ => panic!("expected between"),
    }
    match DragOver::below(root, rid(1, 3)).new_sort(&objs, &order) {
        Some(SortPlan::After(a)) => assert_eq!(a, vec![30]),
        _ => panic!("expected after"),
    }
    match DragOver::into(root, rid(1, 1)).new_sort(&objs, &order) {
        Some(SortPlan::After(a)) => assert_eq!(a, vec![5]),
        _ => panic!("expected after"),
    }
    match DragOver::into(root, rid(1, 3)).new_sort(&objs, &order) {
        Some(SortPlan::FromId(id)) => assert_eq!(id, rid(1, 3)),
        _ => panic!("expected id"),
    }
    assert!(DragOver::into(root, rid(9, 9)).new_sort(&objs, &order).is_none());
    assert_eq!(DragOver::into(root, rid(1, 3)).target_group(), rid(1, 3));
    assert_eq!(DragOver::above(root, rid(1, 3)).target_group(), root);
}
