use mumbler::ids::{Id, PeerId, RemoteId};
use mumbler::objects::{Object, ObjectsRef};
use mumbler::values::{Key, Properties, RemoteObject, Type, Value};
use mumbler::visibility::Visibility;

fn rid(p: u32, i: u32) -> RemoteId {
    RemoteId::new(PeerId(p), Id(i))
}

fn object(peer: u32, id: u32, ty: Type, props: Vec<(Key, Value)>) -> Object {
    let mut p = Properties::new();
    for (k, v) in props {
        p.insert(k, v);
    }
    Object::new(PeerId(peer), &RemoteObject { id: Id(id), ty, props: p }).unwrap()
}

#[test]
fn new_object_reads_properties() {
    let o = object(
        2,
        7,
        Type::Token,
        vec![
            (Key::Name, Value::Text(String::from("Bob"))),
            (Key::Group, Value::Id(Id(3))),
            (Key::Sort, Value::Bytes(vec![4, 5])),
            (Key::Locked, Value::Bool(true)),
        ],
    );
    assert_eq!(o.id, rid(2, 7));
    assert_eq!(*o.group.get(), rid(2, 3));
    assert_eq!(o.name.get().as_str(), "Bob");
    assert_eq!(*o.sort.get(), vec![4, 5]);
    assert!(o.is_locked());
    assert!(o.is_token());
    assert!(o.is_interactive());
    assert_eq!(o.ty(), Type::Token);
    assert_eq!(o.icon(), "user");
}

#[test]
fn unknown_type_makes_no_object() {
    let p = Properties::new();
    let r = RemoteObject { id: Id(1), ty: Type::Unknown(42), props: p };
    assert!(Object::new(PeerId(1), &r).is_none());
}

#[test]
fn update_reports_whether_anything_changed() {
    let mut o = object(1, 1, Type::Group, vec![]);
    assert!(!o.is_expanded());
    assert_eq!(o.icon(), "folder");
    assert!(o.update(Key::Expanded, &Value::Bool(true)));
    assert!(!o.update(Key::Expanded, &Value::Bool(true)));
    assert!(o.is_expanded());
    assert_eq!(o.icon(), "folder-open");
    assert!(o.update(Key::Group, &Value::Id(Id(9))));
    assert_eq!(*o.group.get(), rid(1, 9));
    assert!(o.update(Key::Sort, &Value::Bytes(vec![1])));
    assert!(!o.update(Key::Sort, &Value::Bytes(vec![1])));
    assert!(!o.update(Key::Transform, &Value::Empty));
    assert!(o.update(Key::Name, &Value::Text(String::from("g"))));
    assert!(!o.update(Key::Name, &Value::Text(String::from("g"))));
}

#[test]
fn visibility_of_an_object() {
    let mut o = object(1, 1, Type::Static, vec![]);
    assert_eq!(o.visibility(), Visibility::Remote);
    o.update(Key::Hidden, &Value::Bool(true));
    assert_eq!(o.visibility(), Visibility::Local);
    o.update(Key::LocalHidden, &Value::Bool(true));
    assert_eq!(o.visibility(), Visibility::Nowhere);
    assert_eq!(o.icon(), "squares-2x2");
}

#[test]
fn rooms_are_global_and_never_locked() {
    let o = object(1, 1, Type::Room, vec![(Key::Locked, Value::Bool(true))]);
    assert!(o.is_global());
    assert!(!o.is_locked());
    assert_eq!(o.icon(), "home");
}

#[test]
fn visibility_and_locks_follow_the_group_chain() {
    let mut objects = ObjectsRef::new();
    objects.insert(object(1, 1, Type::Group, vec![(Key::Hidden, Value::Bool(true))]));
    objects.insert(object(
        1,
        2,
        Type::Group,
        vec![(Key::Group, Value::Id(Id(1))), (Key::Locked, Value::Bool(true))],
    ));
    objects.insert(object(1, 3, Type::Token, vec![(Key::Group, Value::Id(Id(2)))]));
    assert_eq!(objects.visibility(rid(1, 3)), Visibility::Local);
    assert_eq!(objects.visibility(RemoteId::zero()), Visibility::Remote);
    assert_eq!(objects.visibility(rid(5, 5)), Visibility::Remote);
    assert!(objects.is_locked(rid(1, 3)));
    assert!(!objects.is_locked(rid(1, 1)));
    assert!(objects.is_interactive(rid(1, 3)));
    assert!(!objects.is_interactive(rid(1, 2)));
}

#[test]
fn objects_update_insert_remove_retain() {
    let mut objects = ObjectsRef::new();
    assert!(objects.insert(object(1, 1, Type::Token, vec![])).is_none());
    assert!(objects.insert(object(2, 1, Type::Room, vec![])).is_none());
    assert!(objects.insert(object(1, 1, Type::Token, vec![])).is_some());
    assert!(objects.update(rid(1, 1), Key::Locked, &Value::Bool(true)));
    assert!(!objects.update(rid(3, 3), Key::Locked, &Value::Bool(true)));
    assert!(objects.get(rid(1, 1)).unwrap().is_locked());
    objects.retain(&|id: RemoteId, global: bool| global || id.peer_id.0 == 2);
    assert!(objects.get(rid(1, 1)).is_none());
    assert!(objects.get(rid(2, 1)).is_some());
    assert!(objects.remove(rid(2, 1)).is_some());
    assert!(objects.ids().is_empty());
}

#[test]
fn object_ref_takes_over_the_name() {
    let mut o = object(1, 1, Type::Token, vec![(Key::Name, Value::Text(String::from("a")))]);
    let mut r = o.as_ref();
    assert_eq!(r.ty, Type::Token);
    assert!(!r.update(&o));
    o.update(Key::Name, &Value::Text(String::from("b")));
    assert!(r.update(&o));
    assert_eq!(r.name.get().as_str(), "b");
}

#[test]
fn group_object_is_expanded() {
    let o = object(1, 1, Type::Group, vec![(Key::Expanded, Value::Bool(true))]);
    match &o.kind {
        mumbler::objects::ObjectKind::Group(g) => assert!(g.is_expanded()),
        _ => unreachable!(),
    }
}

#[test]
fn objects_collect_by_id_later_wins() {
    let objects = ObjectsRef::from_objects(vec![
        object(1, 1, Type::Token, vec![(Key::Name, Value::Text(String::from("a")))]),
        object(1, 2, Type::Group, vec![]),
        object(1, 1, Type::Token, vec![(Key::Name, Value::Text(String::from("b")))]),
    ]);
    assert_eq!(objects.ids().len(), 2);
    assert_eq!(*objects.get(rid(1, 1)).unwrap().name.get(), "b");
    assert!(objects.get(rid(1, 2)).unwrap().is_group());
}
