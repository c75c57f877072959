use mumbler::ids::{Id, PeerId, PublicKey, RemoteId, StableId};
use mumbler::state::State;
use mumbler::values::{Key, Properties, Value};
use mumbler::visibility::Visibility;

#[test]
fn state_update_reports_change() {
    let mut s = State::new(3u32);
    assert!(!s.update(3));
    assert!(s.update(4));
    assert_eq!(*s.get(), 4);
}

#[test]
fn state_replace_returns_old_value() {
    let mut s = State::new(true);
    assert_eq!(s.replace(true), None);
    assert_eq!(s.replace(false), Some(true));
    assert_eq!(*s.get(), false);
}

#[test]
fn state_update_str_compares_text() {
    let mut s = State::new(String::from("name"));
    assert!(!s.update_str("name"));
    assert!(s.update_str("other"));
    assert_eq!(s.get().as_str(), "other");
}

#[test]
fn state_update_twice_changes_once() {
    let mut s = State::new(String::from("a"));
    let v = String::from("b");
    assert!(s.update(v.clone()));
    assert!(!s.update(v));
    assert_eq!(s.get().as_str(), "b");
}

#[test]
fn state_replace_back_restores() {
    let mut s = State::new(7u32);
    assert_eq!(s.replace(9), Some(7));
    assert_eq!(s.replace(7), Some(9));
    assert_eq!(*s.get(), 7);
}

#[test]
fn state_update_str_matches_update() {
    let mut a = State::new(String::from("x"));
    let mut b = State::new(String::from("x"));
    assert_eq!(a.update_str("y"), b.update(String::from("y")));
    assert_eq!(a.get(), b.get());
    assert_eq!(a.update_str("y"), b.update(String::from("y")));
    assert_eq!(a.get().as_str(), "y");
}

#[test]
fn remote_id_helpers() {
    let local = RemoteId::local(Id(5));
    assert!(local.is_local());
    assert!(!RemoteId::new(PeerId(2), Id(5)).is_local());
    assert!(RemoteId::zero().is_root());
    assert_eq!(mumbler::ids::as_group(RemoteId::new(PeerId(3), Id(0))), RemoteId::zero());
    assert_eq!(
        mumbler::ids::as_group(RemoteId::new(PeerId(3), Id(1))),
        RemoteId::new(PeerId(3), Id(1))
    );
    assert!(RemoteId::new(PeerId(1), Id(9)).less(&RemoteId::new(PeerId(2), Id(0))));
    assert!(RemoteId::new(PeerId(1), Id(1)).less(&RemoteId::new(PeerId(1), Id(2))));
}

#[test]
fn peer_id_text_is_decimal() {
    assert_eq!(PeerId(0).to_text(), "0");
    assert_eq!(PeerId(4096).to_text(), "4096");
}

#[test]
fn public_key_and_stable_id_compare_bytes() {
    let a = PublicKey([1u8; 32]);
    let mut bytes = [1u8; 32];
    bytes[31] = 2;
    let b = PublicKey(bytes);
    assert!(a.same(&a));
    assert!(!a.same(&b));
    assert!(StableId::new(a, Id(1)).same(&StableId::new(a, Id(1))));
    assert!(!StableId::new(a, Id(1)).same(&StableId::new(a, Id(2))));
    assert!(StableId::zero().same(&StableId::new(PublicKey::zero(), Id(0))));
}

#[test]
fn values_read_as_their_kind_or_default() {
    assert!(Value::Bool(true).as_bool());
    assert!(!Value::Id(Id(1)).as_bool());
    assert_eq!(Value::Id(Id(7)).as_id(), Id(7));
    assert_eq!(Value::Empty.as_id(), Id(0));
    assert_eq!(Value::Bytes(vec![1, 2]).as_bytes(), vec![1, 2]);
    assert_eq!(Value::Bool(true).as_bytes(), Vec::<u8>::new());
    assert_eq!(Value::Text(String::from("hi")).as_str(), "hi");
    assert_eq!(Value::Empty.as_str(), "");
}

#[test]
fn properties_insert_replaces() {
    let mut p = Properties::new();
    assert!(p.get(Key::Name).is_none());
    p.insert(Key::Name, Value::Text(String::from("a")));
    p.insert(Key::Hidden, Value::Bool(true));
    p.insert(Key::Name, Value::Text(String::from("b")));
    assert_eq!(p.get_str(Key::Name), "b");
    assert!(p.get_bool(Key::Hidden));
    assert!(!p.get_bool(Key::Locked));
    assert_eq!(p.get_bytes(Key::Sort), Vec::<u8>::new());
}

#[test]
fn visibility_max_picks_least_visible() {
    assert_eq!(Visibility::Remote.max(Visibility::Local), Visibility::Local);
    assert_eq!(Visibility::Nowhere.max(Visibility::Local), Visibility::Nowhere);
    assert_eq!(Visibility::Remote.max(Visibility::Remote), Visibility::Remote);
    assert!(Visibility::Remote.is_remote());
    assert!(Visibility::Local.is_local());
    assert!(Visibility::Nowhere.is_none());
}
