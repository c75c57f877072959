use mumbler::hierarchy::HierarchyRef;
use mumbler::ids::{Id, PeerId, RemoteId};
use mumbler::objects::Object;
use mumbler::values::{Key, Properties, RemoteObject, Type, Value};

fn rid(p: u32, i: u32) -> RemoteId {
    RemoteId::new(PeerId(p), Id(i))
}

fn object(peer: u32, id: u32, ty: Type, group: u32, sort: Vec<u8>) -> Object {
    let mut p = Properties::new();
    p.insert(Key::Group, Value::Id(Id(group)));
    p.insert(Key::Sort, Value::Bytes(sort));
    Object::new(PeerId(peer), &RemoteObject { id: Id(id), ty, props: p }).unwrap()
}

#[test]
fn objects_without_sort_bytes_are_left_out() {
    let mut h = HierarchyRef::new();
    h.insert(&object(1, 1, Type::Token, 0, vec![]));
    assert!(h.is_empty(RemoteId::zero()));
    h.insert(&object(1, 2, Type::Token, 0, vec![5]));
    assert_eq!(h.iter(RemoteId::zero()), vec![rid(1, 2)]);
}

#[test]
fn hierarchy_children_are_sorted_and_walked_depth_first() {
    let mut h = HierarchyRef::new();
    h.extend(&[
        object(1, 1, Type::Group, 0, vec![2]),
        object(1, 2, Type::Token, 0, vec![1]),
        object(1, 3, Type::Token, 1, vec![9]),
        object(1, 4, Type::Token, 1, vec![3]),
    ]);
    assert_eq!(h.iter(RemoteId::zero()), vec![rid(1, 2), rid(1, 1)]);
    assert_eq!(h.iter(rid(1, 1)), vec![rid(1, 4), rid(1, 3)]);
    assert_eq!(h.walk(), vec![rid(1, 2), rid(1, 1), rid(1, 4), rid(1, 3)]);
    assert_eq!(h.walk_back_from(RemoteId::zero()), vec![rid(1, 1), rid(1, 3), rid(1, 4), rid(1, 2)]);
    assert_eq!(h.walk_from(rid(1, 1)), vec![rid(1, 4), rid(1, 3)]);
}

#[test]
fn removing_leaves_the_group_and_reorder_moves() {
    let mut h = HierarchyRef::new();
    h.insert(&object(1, 1, Type::Group, 0, vec![1]));
    h.insert(&object(1, 2, Type::Token, 1, vec![1]));
    h.remove(rid(1, 1), &[1], rid(1, 2));
    assert!(h.is_empty(rid(1, 1)));
    // The object leaves every group, whatever group the caller names.
    h.remove(rid(1, 0), &[1], rid(1, 1));
    assert!(h.iter(RemoteId::zero()).is_empty());
    // Moving an object that is nowhere only adds it.
    h.reorder(RemoteId::zero(), &[1], rid(1, 1), &[7], rid(1, 9));
    assert!(h.iter(RemoteId::zero()).is_empty());
    assert_eq!(h.iter(rid(1, 1)), vec![rid(1, 9)]);
    h.reorder(RemoteId::zero(), &[1], rid(1, 1), &[0], rid(1, 1));
    assert!(h.iter(RemoteId::zero()).is_empty());
    assert_eq!(h.iter(rid(1, 1)), vec![rid(1, 1), rid(1, 9)]);
}

#[test]
fn remove_takes_every_key_of_the_object() {
    let mut h = HierarchyRef::new();
    h.insert(&object(1, 1, Type::Group, 0, vec![1]));
    h.insert(&object(1, 3, Type::Token, 1, vec![1]));
    // A second insert under another group leaves a stale key behind.
    h.insert(&object(1, 3, Type::Token, 0, vec![2]));
    h.insert(&object(1, 4, Type::Token, 0, vec![3]));
    assert_eq!(h.iter(RemoteId::zero()), vec![rid(1, 1), rid(1, 3), rid(1, 4)]);
    h.remove(RemoteId::zero(), &[2], rid(1, 3));
    assert_eq!(h.iter(RemoteId::zero()), vec![rid(1, 1), rid(1, 4)]);
    assert!(h.is_empty(rid(1, 1)));
    assert_eq!(h.walk(), vec![rid(1, 1), rid(1, 4)]);
}

#[test]
fn retain_keeps_accepted_peers() {
    let mut h = HierarchyRef::new();
    h.insert(&object(0, 1, Type::Group, 0, vec![1]));
    h.insert(&object(2, 2, Type::Token, 0, vec![2]));
    h.insert(&object(2, 3, Type::Group, 0, vec![3]));
    h.insert(&object(2, 4, Type::Token, 3, vec![1]));
    h.insert(&object(0, 5, Type::Token, 1, vec![1]));
    h.retain(&|p: PeerId| p.0 != 2);
    assert_eq!(h.iter(RemoteId::zero()), vec![rid(0, 1)]);
    assert!(h.is_empty(rid(2, 3)));
    assert_eq!(h.walk(), vec![rid(0, 1), rid(0, 5)]);
}
