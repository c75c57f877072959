use mumbler::ids::{Id, PeerId, PublicKey, RemoteId, StableId};
use mumbler::rooms::{new_room_props, room_less, Owner, Room, Rooms};
use mumbler::values::{Key, Properties, RemoteObject, RemotePeer, Type, Value};

fn key(b: u8) -> PublicKey {
    PublicKey([b; 32])
}

fn sid(k: u8, i: u32) -> StableId {
    StableId::new(key(k), Id(i))
}

fn room_object(id: u32, name: &str) -> RemoteObject {
    let mut props = Properties::new();
    props.insert(Key::Name, Value::Text(String::from(name)));
    RemoteObject { id: Id(id), ty: Type::Room, props }
}

fn token_object(id: u32) -> RemoteObject {
    RemoteObject { id: Id(id), ty: Type::Token, props: Properties::new() }
}

fn peer(id: u32, k: u8, name: &str, room: Option<StableId>) -> RemotePeer {
    let mut props = Properties::new();
    props.insert(Key::PeerName, Value::Text(String::from(name)));
    if let Some(room) = room {
        props.insert(Key::Room, Value::StableId(room));
    }
    RemotePeer { id: PeerId(id), public_key: key(k), props }
}

fn names(rooms: &Rooms) -> Vec<String> {
    rooms.rooms().iter().map(|r| r.name.clone()).collect()
}

fn setup() -> Rooms {
    let mut rooms = Rooms::new();
    let mut config = Properties::new();
    config.insert(Key::Room, Value::StableId(sid(1, 2)));
    rooms.initialize(
        key(1),
        &config,
        vec![room_object(2, "Tavern"), token_object(3), room_object(4, "Cave")],
        vec![peer(5, 7, "Gandalf", Some(sid(1, 2))), peer(6, 8, "", None)],
        vec![(PeerId(5), room_object(1, "Bridge")), (PeerId(6), room_object(9, "Tavern"))],
    );
    rooms
}

#[test]
fn rooms_are_ordered_by_name_then_id() {
    let a = Room { id: sid(2, 1), name: String::from("Alpha") };
    let b = Room { id: sid(1, 9), name: String::from("Beta") };
    let b2 = Room { id: sid(2, 0), name: String::from("Beta") };
    let b3 = Room { id: sid(2, 3), name: String::from("Beta") };
    assert!(room_less(&a, &b));
    assert!(!room_less(&b, &a));
    assert!(room_less(&b, &b2));
    assert!(room_less(&b2, &b3));
    assert!(!room_less(&b3, &b3));
    // Upper case letters come before lower case ones, as bytes do.
    let upper = Room { id: sid(1, 1), name: String::from("Zed") };
    let lower = Room { id: sid(1, 1), name: String::from("apple") };
    assert!(room_less(&upper, &lower));
}

#[test]
fn initialize_lists_rooms_sorted() {
    let rooms = setup();
    assert_eq!(names(&rooms), vec!["Bridge", "Cave", "Tavern", "Tavern"]);
    assert_eq!(rooms.active_room().id, Id(2));
    let ids: Vec<StableId> = rooms.rooms().iter().map(|r| r.id).collect();
    // The two rooms named "Tavern" are ordered by owner key: 1 before 8.
    assert!(ids[2].public_key.same(&key(1)));
    assert!(ids[3].public_key.same(&key(8)));
    assert_eq!(ids[0].id, Id(1));
    assert!(ids[0].public_key.same(&key(7)));
}

#[test]
fn created_rooms_join_in_order() {
    let mut rooms = setup();
    assert!(rooms.object_created(RemoteId::new(PeerId(0), Id(7)), &room_object(7, "Attic")));
    assert!(!rooms.object_created(RemoteId::new(PeerId(0), Id(8)), &token_object(8)));
    assert_eq!(names(&rooms), vec!["Attic", "Bridge", "Cave", "Tavern", "Tavern"]);
}

#[test]
fn removed_rooms_leave_and_echoes_are_ignored() {
    let mut rooms = setup();
    assert!(!rooms.object_removed(true, RemoteId::new(PeerId(0), Id(4))));
    assert_eq!(rooms.rooms().len(), 4);
    assert!(rooms.object_removed(false, RemoteId::new(PeerId(0), Id(4))));
    assert_eq!(names(&rooms), vec!["Bridge", "Tavern", "Tavern"]);
    assert!(!rooms.object_removed(false, RemoteId::new(PeerId(0), Id(4))));
}

#[test]
fn renamed_rooms_move() {
    let mut rooms = setup();
    let text = Value::Text(String::from("Armory"));
    assert!(!rooms.object_updated(true, RemoteId::new(PeerId(0), Id(2)), Key::Name, &text));
    assert!(!rooms.object_updated(false, RemoteId::new(PeerId(0), Id(2)), Key::Hidden, &text));
    assert!(!rooms.object_updated(false, RemoteId::new(PeerId(0), Id(77)), Key::Name, &text));
    assert!(rooms.object_updated(false, RemoteId::new(PeerId(0), Id(2)), Key::Name, &text));
    assert_eq!(names(&rooms), vec!["Armory", "Bridge", "Cave", "Tavern"]);
}

#[test]
fn losing_the_remote_drops_own_rooms() {
    let mut rooms = setup();
    assert!(rooms.remote_lost());
    assert_eq!(names(&rooms), vec!["Bridge", "Tavern"]);
}

#[test]
fn a_disconnecting_peer_takes_its_rooms() {
    let mut rooms = setup();
    assert!(!rooms.peer_disconnect(PeerId(42)));
    assert!(rooms.peer_disconnect(PeerId(5)));
    assert_eq!(names(&rooms), vec!["Cave", "Tavern", "Tavern"]);
    assert!(rooms.peers().get(PeerId(5)).is_none());
}

#[test]
fn player_counts_include_this_client() {
    let mut rooms = setup();
    let tavern = sid(1, 2);
    // Gandalf and this client are in the tavern; the nameless peer is in no room.
    assert_eq!(rooms.peer_count(&tavern), 2);
    assert_eq!(rooms.no_room_count(), 1);
    rooms.disconnect();
    assert_eq!(rooms.peer_count(&tavern), 1);
    assert_eq!(rooms.no_room_count(), 2);
    assert!(rooms.peer_update(PeerId(6), Key::Room, Value::StableId(tavern)));
    assert!(!rooms.peer_update(PeerId(6), Key::Hidden, Value::Bool(true)));
    assert!(!rooms.peer_update(PeerId(99), Key::Room, Value::Empty));
    assert_eq!(rooms.peer_count(&tavern), 2);
    assert_eq!(rooms.no_room_count(), 1);
}

#[test]
fn connect_and_disconnect_send_the_room() {
    let mut rooms = setup();
    let updates = rooms.connect(sid(7, 1));
    assert_eq!(updates.len(), 1);
    assert_eq!(updates[0].0, Key::Room);
    assert!(matches!(updates[0].1, Value::StableId(id) if id.id == Id(1)));
    assert_eq!(rooms.active_room().id, Id(1));
    let updates = rooms.disconnect();
    assert!(matches!(updates[0].1, Value::Empty));
    assert!(rooms.active_room().same(&StableId::zero()));
}

#[test]
fn config_updates_set_the_active_room() {
    let mut rooms = setup();
    assert!(!rooms.config_update(true, Key::Room, &Value::StableId(sid(3, 3))));
    assert!(!rooms.config_update(false, Key::PeerName, &Value::StableId(sid(3, 3))));
    assert!(rooms.config_update(false, Key::Room, &Value::StableId(sid(3, 3))));
    assert!(rooms.active_room().same(&sid(3, 3)));
}

#[test]
fn owners_are_named() {
    let rooms = setup();
    let list = rooms.rooms();
    assert!(matches!(rooms.owner(&list[0]), Owner::Peer(ref name) if name == "Gandalf"));
    assert!(matches!(rooms.owner(&list[1]), Owner::You));
    assert!(matches!(rooms.owner(&list[3]), Owner::Peer(ref name) if name == "6"));
    assert!(rooms.is_local(&list[1]));
    assert!(!rooms.is_local(&list[0]));
    let stranger = Room { id: sid(99, 1), name: String::new() };
    assert!(matches!(rooms.owner(&stranger), Owner::Unknown));
    assert_eq!(rooms.room_target(&list[1]), RemoteId::new(PeerId(0), Id(4)));
    assert_eq!(rooms.room_target(&list[0]), RemoteId::new(PeerId(5), Id(1)));
    assert_eq!(rooms.room_target(&stranger), RemoteId::zero());
}

#[test]
fn state_changes_clear_the_list() {
    let mut rooms = setup();
    assert!(rooms.state_changed(true));
    assert!(rooms.rooms().is_empty());
    assert!(rooms.peers().get(PeerId(5)).is_some());
    assert!(rooms.state_changed(false));
    assert!(rooms.peers().get(PeerId(5)).is_none());
    assert!(rooms.active_room().same(&StableId::zero()));
    assert!(rooms.peers().public_key().same(&PublicKey([0; 32])));
}

#[test]
fn a_new_room_is_named() {
    let props = new_room_props();
    match props.get(Key::Name) {
        Some(Value::Text(name)) => assert_eq!(name, "New Room"),
        _ => panic!("no name"),
    }
}

#[test]
fn a_new_public_key_is_taken() {
    let mut rooms = setup();
    assert!(rooms.public_key_update(key(8)));
    assert!(rooms.is_local(&rooms.rooms()[3]));
    assert!(rooms.peer_connected(peer(9, 9, "Frodo", None)));
    assert!(rooms.peers().get(PeerId(9)).is_some());
}
