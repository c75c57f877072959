use mumbler::ids::{Id, PeerId, PublicKey, RemoteId, StableId};
use mumbler::scene::{Dialog, Scene};
use mumbler::values::{Key, Properties, RemoteObject, RemotePeer, Type, Value};

fn rid(p: u32, i: u32) -> RemoteId {
    RemoteId::new(PeerId(p), Id(i))
}

fn remote(id: u32, ty: Type, group: u32, sort: Vec<u8>) -> RemoteObject {
    let mut p = Properties::new();
    p.insert(Key::Group, Value::Id(Id(group)));
    p.insert(Key::Sort, Value::Bytes(sort));
    RemoteObject { id: Id(id), ty, props: p }
}

fn peer(id: u32, k: u8, room: Option<StableId>) -> RemotePeer {
    let mut props = Properties::new();
    if let Some(room) = room {
        props.insert(Key::Room, Value::StableId(room));
    }
    RemotePeer { id: PeerId(id), public_key: PublicKey([k; 32]), props }
}

fn setup() -> Scene {
    let mut scene = Scene::new();
    let mut config = Properties::new();
    config.insert(Key::Room, Value::StableId(StableId::new(PublicKey([1; 32]), Id(9))));
    scene.initialize(
        PublicKey([1; 32]),
        &config,
        vec![remote(1, Type::Group, 0, vec![1]), remote(2, Type::Token, 1, vec![1]), remote(9, Type::Room, 0, vec![])],
        vec![peer(3, 3, Some(StableId::new(PublicKey([1; 32]), Id(9)))), peer(4, 4, None)],
        vec![(PeerId(3), remote(5, Type::Token, 0, vec![0])), (PeerId(3), remote(6, Type::Room, 0, vec![]))],
    );
    scene
}

#[test]
fn initialize_orders_objects() {
    let scene = setup();
    assert_eq!(scene.order().iter(RemoteId::zero()), vec![rid(3, 5), rid(0, 1)]);
    assert_eq!(scene.order().iter(rid(0, 1)), vec![rid(0, 2)]);
    assert!(scene.objects().get(rid(0, 9)).is_some());
    assert!(scene.objects().get(rid(3, 6)).is_some());
    assert!(scene.peers().get(PeerId(3)).unwrap().in_room);
    assert!(!scene.peers().get(PeerId(4)).unwrap().in_room);
}

#[test]
fn updates_move_objects_in_the_order() {
    let mut scene = setup();
    assert!(scene.object_updated(false, rid(0, 2), Key::Group, &Value::Id(Id(0))));
    assert_eq!(scene.order().iter(RemoteId::zero()), vec![rid(3, 5), rid(0, 1), rid(0, 2)]);
    assert!(scene.order().is_empty(rid(0, 1)));
    // A prefix sorts first: [0] before [0, 0] before [1].
    assert!(scene.object_updated(false, rid(0, 2), Key::Sort, &Value::Bytes(vec![0, 0])));
    assert_eq!(scene.order().iter(RemoteId::zero()), vec![rid(3, 5), rid(0, 2), rid(0, 1)]);
    assert!(!scene.object_updated(false, rid(0, 2), Key::Sort, &Value::Bytes(vec![0, 0])));
    assert!(!scene.object_updated(true, rid(0, 2), Key::Sort, &Value::Bytes(vec![7])));
    assert!(scene.object_updated(false, rid(0, 2), Key::Name, &Value::Text(String::from("Orc"))));
    assert!(!scene.object_updated(false, rid(7, 7), Key::Name, &Value::Empty));
}

#[test]
fn created_and_removed_objects_follow() {
    let mut scene = setup();
    assert!(scene.object_created(rid(4, 0), &remote(8, Type::Token, 0, vec![5])));
    assert_eq!(scene.order().iter(RemoteId::zero()), vec![rid(3, 5), rid(0, 1), rid(4, 8)]);
    assert!(!scene.object_created(rid(4, 0), &RemoteObject { id: Id(10), ty: Type::Unknown(77), props: Properties::new() }));
    assert_eq!(scene.object_removed(true, rid(4, 8)), (false, None));
    assert_eq!(scene.object_removed(false, rid(4, 8)), (true, None));
    assert_eq!(scene.object_removed(false, rid(4, 8)), (false, None));
    assert_eq!(scene.order().iter(RemoteId::zero()), vec![rid(3, 5), rid(0, 1)]);
}

#[test]
fn peers_leaving_take_their_objects() {
    let mut scene = setup();
    assert!(scene.peer_leave(PeerId(3)));
    assert!(scene.objects().get(rid(3, 5)).is_none());
    // Rooms stay when their owner leaves the room.
    assert!(scene.objects().get(rid(3, 6)).is_some());
    assert_eq!(scene.order().iter(RemoteId::zero()), vec![rid(0, 1)]);
    assert!(scene.peer_join(PeerId(3), vec![remote(5, Type::Token, 0, vec![0])]));
    assert_eq!(scene.order().iter(RemoteId::zero()), vec![rid(3, 5), rid(0, 1)]);
    assert!(scene.peer_disconnect(PeerId(3)));
    assert!(scene.objects().get(rid(3, 6)).is_none());
    assert!(scene.peers().get(PeerId(3)).is_none());
}

#[test]
fn losing_the_remote_keeps_local_objects() {
    let mut scene = setup();
    assert!(scene.remote_lost());
    assert!(scene.objects().get(rid(3, 5)).is_none());
    assert!(scene.objects().get(rid(0, 2)).is_some());
    assert_eq!(scene.order().iter(RemoteId::zero()), vec![rid(0, 1)]);
    assert!(scene.peers().get(PeerId(4)).is_none());
}

#[test]
fn changing_room_updates_peers() {
    let mut scene = setup();
    let other = StableId::new(PublicKey([4; 32]), Id(1));
    assert!(scene.set_room(other));
    assert!(!scene.set_room(other));
    assert!(!scene.peers().get(PeerId(3)).unwrap().in_room);
    assert!(scene.peer_update(PeerId(4), Key::Room, Value::StableId(other)));
    assert!(scene.peers().get(PeerId(4)).unwrap().in_room);
    assert!(!scene.peer_update(PeerId(5), Key::Room, Value::StableId(other)));
    assert!(scene.peer_connected(peer(6, 6, Some(other))));
    assert!(scene.peers().get(PeerId(6)).unwrap().in_room);
}

fn following_setup() -> Scene {
    let mut scene = setup();
    assert!(scene.config_update(false, Key::MumbleFollow, &Value::Bool(true)));
    assert!(!scene.config_update(false, Key::MumbleFollow, &Value::Bool(true)));
    scene
}

#[test]
fn selecting_a_token_moves_the_mumble_source() {
    let mut scene = following_setup();
    // Object 0:2 is a token: the source follows.
    assert_eq!(scene.select(rid(0, 2)), (true, Some(rid(0, 2))));
    assert_eq!(scene.mumble_object(), rid(0, 2));
    assert_eq!(scene.select(rid(0, 2)), (false, None));
    // Object 0:1 is a group: the source stays.
    assert_eq!(scene.select(rid(0, 1)), (true, None));
    assert_eq!(scene.selected(), rid(0, 1));
    assert_eq!(scene.mumble_object(), rid(0, 2));
    // Selecting nothing clears the source.
    assert_eq!(scene.select(RemoteId::zero()), (true, Some(RemoteId::zero())));
    assert_eq!(scene.mumble_object(), RemoteId::zero());
}

#[test]
fn removing_the_selected_object_clears_the_selection() {
    let mut scene = following_setup();
    scene.select(rid(0, 2));
    assert_eq!(scene.object_removed(false, rid(0, 2)), (true, Some(RemoteId::zero())));
    assert_eq!(scene.selected(), RemoteId::zero());
    let mut quiet = setup();
    quiet.select(rid(0, 2));
    assert_eq!(quiet.object_removed(false, rid(0, 2)), (true, None));
    assert_eq!(quiet.selected(), RemoteId::zero());
}

#[test]
fn toggles_change_own_objects_only() {
    let mut scene = setup();
    match scene.toggle_hidden(rid(0, 2)) {
        Some((Key::Hidden, Value::Bool(true))) => {}
        _ => panic!("expected hidden"),
    }
    assert!(scene.objects().get(rid(0, 2)).unwrap().is_hidden());
    match scene.toggle_hidden(rid(0, 2)) {
        Some((Key::Hidden, Value::Bool(false))) => {}
        _ => panic!("expected visible"),
    }
    assert!(scene.toggle_hidden(rid(3, 5)).is_none());
    assert!(scene.toggle_hidden(RemoteId::zero()).is_none());
    assert!(scene.toggle_local_hidden(rid(0, 2)).is_some());
    assert!(scene.objects().get(rid(0, 2)).unwrap().is_local_hidden());
    assert!(scene.toggle_locked(rid(0, 2)).is_some());
    assert!(scene.objects().get(rid(0, 2)).unwrap().is_locked());
    // Rooms cannot be locked, and only groups expand.
    assert!(scene.toggle_locked(rid(0, 9)).is_none());
    assert!(scene.toggle_expanded(rid(0, 2)).is_none());
    assert!(scene.toggle_expanded(rid(0, 1)).is_some());
    assert!(scene.objects().get(rid(0, 1)).unwrap().is_expanded());
}

#[test]
fn the_mumble_source_toggles() {
    let mut scene = setup();
    assert_eq!(scene.toggle_mumble_object(rid(0, 2)), Some(rid(0, 2)));
    assert_eq!(scene.toggle_mumble_object(rid(0, 2)), Some(RemoteId::zero()));
    assert_eq!(scene.toggle_mumble_object(rid(3, 5)), None);
    assert!(scene.config_update(false, Key::MumbleObject, &Value::Id(Id(1))));
    assert_eq!(scene.mumble_object(), rid(0, 1));
    assert!(!scene.config_update(true, Key::MumbleObject, &Value::Id(Id(2))));
    assert!(!scene.config_update(false, Key::Name, &Value::Id(Id(2))));
    assert!(scene.config_update(false, Key::Room, &Value::Empty));
}

#[test]
fn the_peer_name_is_kept_and_shown() {
    let mut scene = Scene::new();
    assert_eq!(scene.display(), "You");
    let mut config = Properties::new();
    config.insert(Key::PeerName, Value::Text(String::from("Ann")));
    scene.initialize(PublicKey([1; 32]), &config, vec![], vec![], vec![]);
    assert_eq!(scene.display(), "Ann (You)");
    assert!(scene.config_update(false, Key::PeerName, &Value::Text(String::from("Bob"))));
    assert!(!scene.config_update(false, Key::PeerName, &Value::Text(String::from("Bob"))));
    assert!(!scene.config_update(true, Key::PeerName, &Value::Text(String::from("Cy"))));
    assert_eq!(scene.display(), "Bob (You)");
}

#[test]
fn objects_without_sort_key_are_not_ordered() {
    let mut scene = setup();
    assert!(scene.object_created(rid(4, 0), &remote(8, Type::Token, 0, vec![])));
    assert!(scene.objects().get(rid(4, 8)).is_some());
    assert_eq!(scene.order().iter(RemoteId::zero()), vec![rid(3, 5), rid(0, 1)]);
}

#[test]
fn a_disconnected_peer_leaves_no_group_in_the_order() {
    let mut scene = setup();
    assert!(scene.object_created(rid(3, 0), &remote(7, Type::Group, 0, vec![3])));
    assert!(scene.object_created(rid(3, 0), &remote(8, Type::Token, 7, vec![1])));
    assert_eq!(scene.order().iter(rid(3, 7)), vec![rid(3, 8)]);
    assert!(scene.peer_disconnect(PeerId(3)));
    assert!(scene.order().is_empty(rid(3, 7)));
    assert_eq!(scene.order().iter(RemoteId::zero()), vec![rid(0, 1)]);
}

#[test]
fn dialogs_offer_unlocking_locked_objects() {
    let mut scene = setup();
    assert_eq!(scene.dialog_for(rid(0, 2), false), Some(Dialog::Settings(rid(0, 2))));
    assert_eq!(scene.dialog_for(rid(0, 2), true), Some(Dialog::Remove(rid(0, 2))));
    // Locking the group locks what sits in it.
    assert!(scene.toggle_locked(rid(0, 1)).is_some());
    assert_eq!(scene.dialog_for(rid(0, 2), true), Some(Dialog::Unlock(rid(0, 2))));
    assert_eq!(scene.dialog_for(rid(0, 2), false), Some(Dialog::Unlock(rid(0, 2))));
    assert_eq!(scene.dialog_for(rid(7, 7), false), None);
}

#[test]
fn following_the_selection_toggles() {
    let mut scene = setup();
    assert!(scene.toggle_follow());
    assert!(scene.mumble_follow());
    assert!(!scene.toggle_follow());
}
