use mumbler::drag_over::{Drag, DragOver};
use mumbler::hierarchy::HierarchyRef;
use mumbler::ids::{Id, PeerId, RemoteId};
use mumbler::object_list::object_list;
use mumbler::objects::{Object, ObjectsRef};
use mumbler::settings::{ImageSettings, ObjectSettings, RoomSettings};
use mumbler::values::{Key, Properties, RemoteObject, Type, Value};

fn rid(p: u32, i: u32) -> RemoteId {
    RemoteId::new(PeerId(p), Id(i))
}

fn object(id: u32, ty: Type, group: u32, sort: u8, expanded: bool) -> Object {
    let mut p = Properties::new();
    p.insert(Key::Group, Value::Id(Id(group)));
    p.insert(Key::Sort, Value::Bytes(vec![sort]));
    p.insert(Key::Expanded, Value::Bool(expanded));
    Object::new(PeerId(1), &RemoteObject { id: Id(id), ty, props: p }).unwrap()
}

#[test]
fn settings_send_only_changes() {
    let mut s = ObjectSettings::new(rid(1, 1));
    s.load(vec![(Key::Name, Value::Text(String::from("Orc"))), (Key::Locked, Value::Bool(true))]);
    assert!(s.text_changed(Key::Name, "Orc").is_none());
    let u = s.text_changed(Key::Name, "Elf").unwrap();
    assert_eq!(u.len(), 1);
    assert!(matches!(&u[0], (Key::Name, Value::Text(t)) if t == "Elf"));
    assert!(s.flag_changed(Key::Locked, true).is_none());
    assert!(s.flag_changed(Key::Locked, false).is_some());
    // A missing flag reads as false.
    assert!(s.flag_changed(Key::Hidden, false).is_none());
    assert!(s.id_changed(Key::ImageId, rid(1, 0)).is_none());
    assert!(s.id_changed(Key::ImageId, rid(1, 4)).is_some());
    assert!(s.id_changed(Key::ImageId, rid(2, 4)).is_none());
    assert!(matches!(s.get(Key::ImageId), Some(Value::Id(Id(4)))));
}

#[test]
fn settings_follow_their_object() {
    let mut s = ObjectSettings::new(rid(1, 1));
    assert!(!s.remote_update(rid(1, 2), Key::Name, Value::Text(String::from("x"))));
    assert!(s.get(Key::Name).is_none());
    assert!(s.remote_update(rid(1, 1), Key::Name, Value::Text(String::from("y"))));
    assert!(matches!(s.get(Key::Name), Some(Value::Text(t)) if t == "y"));
    assert_eq!(s.target(), rid(1, 1));
}

#[test]
fn object_list_rows() {
    let mut objects = ObjectsRef::new();
    let mut h = HierarchyRef::new();
    let all = vec![
        object(1, Type::Group, 0, 1, true),
        object(2, Type::Token, 0, 2, false),
        object(3, Type::Token, 1, 1, false),
        object(4, Type::Group, 0, 3, true),
    ];
    h.extend(&all);
    for o in all {
        objects.insert(o);
    }
    // An entry whose object is unknown is not shown.
    h.insert(&object(5, Type::Token, 0, 4, false));
    let group = RemoteId::zero();
    let over = DragOver::into(group, rid(1, 4));
    let view = object_list(&h, &objects, group, Some(rid(1, 2)), Some(over), None);
    assert_eq!(view.rows.len(), 3);
    assert!(view.empty_drop.is_none());
    let (a, b, c) = (view.rows[0], view.rows[1], view.rows[2]);
    assert_eq!(a.id, rid(1, 1));
    assert!(a.first && !a.last && !a.above_active);
    assert_eq!(a.drag.drag, Drag::Into);
    assert!(a.show_children);
    assert!(a.drop_into_last.is_none());
    assert_eq!(b.id, rid(1, 2));
    assert!(b.selected && !b.first);
    assert_eq!(b.drag.drag, Drag::Below);
    assert!(!b.show_children);
    assert_eq!(c.id, rid(1, 4));
    assert!(c.last);
    // Group 4 has no children but a drop goes into it.
    assert!(c.show_children);
    assert_eq!(c.drop_into_last, Some(group));
    // The empty list of group 4 shows the drop zone.
    let inner = object_list(&h, &objects, rid(1, 4), None, Some(over), c.drop_into_last);
    assert!(inner.rows.is_empty());
    let zone = inner.empty_drop.unwrap();
    assert!(zone.same(&DragOver::into(rid(1, 4), group)));
    // The last row of a list that a drop goes into has its zone below active.
    let inner = object_list(&h, &objects, rid(1, 1), None, None, Some(group));
    assert_eq!(inner.rows.len(), 1);
    assert!(inner.rows[0].below_active && inner.rows[0].first && inner.rows[0].last);
}

#[test]
fn room_settings_take_in_their_properties() {
    let mut s = RoomSettings::new();
    assert!(s.update_property(Key::Name, &Value::Text(String::from("Hall"))));
    assert!(!s.update_property(Key::Name, &Value::Text(String::from("Hall"))));
    assert!(s.update_property(Key::RoomBackground, &Value::Id(Id(4))));
    assert_eq!(*s.background.get(), RemoteId::new(PeerId(0), Id(4)));
    assert!(s.update_property(Key::ShowGrid, &Value::Bool(true)));
    assert!(!s.update_property(Key::ShowGrid, &Value::Bool(true)));
    assert!(!s.update_property(Key::Hidden, &Value::Bool(true)));
    assert_eq!(s.name.get().as_str(), "Hall");
    assert!(*s.show_grid.get());
}

#[test]
fn image_settings_take_in_their_properties() {
    let mut s = ImageSettings::new();
    assert!(s.update_property(Key::ImageId, &Value::Id(Id(7))));
    assert!(!s.update_property(Key::ImageId, &Value::Id(Id(7))));
    assert_eq!(*s.image.get(), RemoteId::new(PeerId(0), Id(7)));
    assert!(s.update_property(Key::Name, &Value::Text(String::from("Orc"))));
    assert!(!s.update_property(Key::ShowGrid, &Value::Bool(true)));
    assert_eq!(s.name.get().as_str(), "Orc");
}
