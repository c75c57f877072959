use mumbler::error::Error;
use mumbler::ids::{Id, PeerId, PublicKey, RemoteId, StableId};
use mumbler::link::{LinkState, ALL_FLAGS, CONTEXT_FLAG, NAME_FLAG, VERSION_FLAG};
use mumbler::log::{time_text, Log, Severity};
use mumbler::peers::Peers;
use mumbler::values::{Key, Properties, RemotePeer, Value};

fn key(b: u8) -> PublicKey {
    PublicKey([b; 32])
}

fn remote_peer(id: u32, k: u8, name: &str, room: Option<StableId>) -> RemotePeer {
    let mut props = Properties::new();
    props.insert(Key::PeerName, Value::Text(String::from(name)));
    if let Some(room) = room {
        props.insert(Key::Room, Value::StableId(room));
    }
    RemotePeer { id: PeerId(id), public_key: key(k), props }
}

#[test]
fn peers_are_found_by_id_and_key() {
    let room = StableId::new(key(9), Id(1));
    let mut peers = Peers::new();
    peers.insert(remote_peer(1, 1, "one", Some(room)), &room);
    peers.insert(remote_peer(2, 2, "", None), &room);
    assert!(peers.get(PeerId(1)).unwrap().in_room);
    assert!(!peers.get(PeerId(2)).unwrap().in_room);
    assert_eq!(peers.by_public_key(&key(2)).unwrap().id, PeerId(2));
    assert_eq!(peers.get(PeerId(1)).unwrap().display(), "one");
    assert_eq!(peers.get(PeerId(2)).unwrap().display(), "2");
}

#[test]
fn reinserting_a_key_replaces_the_old_peer() {
    let room = StableId::new(key(9), Id(1));
    let mut peers = Peers::new();
    peers.insert(remote_peer(1, 1, "old", None), &room);
    peers.insert(remote_peer(3, 1, "new", None), &room);
    assert!(peers.get(PeerId(1)).is_none());
    assert_eq!(peers.by_public_key(&key(1)).unwrap().id, PeerId(3));
    // The same id with another key forgets the old key.
    peers.insert(remote_peer(3, 4, "moved", None), &room);
    assert!(peers.by_public_key(&key(1)).is_none());
    assert_eq!(peers.by_public_key(&key(4)).unwrap().id, PeerId(3));
    peers.remove_peer(PeerId(3));
    assert!(peers.by_public_key(&key(4)).is_none());
    assert!(peers.ids().is_empty());
}

#[test]
fn ids_map_both_ways() {
    let room = StableId::new(key(9), Id(1));
    let mut peers = Peers::new();
    peers.set_public_key(key(7));
    peers.insert(remote_peer(5, 1, "p", None), &room);
    let s = StableId::new(key(1), Id(8));
    let r = peers.to_remote_id(&s);
    assert_eq!(r, RemoteId::new(PeerId(5), Id(8)));
    assert!(peers.to_stable_id(&r).same(&s));
    let mine = StableId::new(key(7), Id(2));
    assert_eq!(peers.to_remote_id(&mine), RemoteId::local(Id(2)));
    assert!(peers.to_stable_id(&RemoteId::local(Id(2))).same(&mine));
    assert_eq!(peers.to_remote_id(&StableId::new(key(3), Id(1))), RemoteId::zero());
    assert!(peers.to_stable_id(&RemoteId::new(PeerId(6), Id(1))).same(&StableId::zero()));
}

#[test]
fn peer_update_tracks_the_room() {
    let room = StableId::new(key(9), Id(1));
    let mut peers = Peers::new();
    peers.insert(remote_peer(1, 1, "p", None), &room);
    assert!(peers.update_peer(PeerId(1), Key::Room, Value::StableId(room), &room));
    assert!(peers.get(PeerId(1)).unwrap().in_room);
    assert!(!peers.update_peer(PeerId(2), Key::Room, Value::StableId(room), &room));
    peers.clear();
    assert!(peers.get(PeerId(1)).is_none());
}

#[test]
fn log_keeps_the_newest_entries() {
    let mut log: Log<u32> = Log::with_max(3);
    for i in 0..5u32 {
        log.log(i);
    }
    assert_eq!(log.entries(), vec![2, 3, 4]);
    log.clear();
    assert_eq!(log.len(), 0);
    let mut big: Log<u32> = Log::new();
    for i in 0..150u32 {
        big.log(i);
    }
    assert_eq!(big.len(), 100);
    assert_eq!(*big.get(0), 50);
}

#[test]
fn severity_names() {
    assert_eq!(Severity::Info.as_str(), "info");
    assert_eq!(Severity::Error.as_str(), "error");
}

#[test]
fn error_message_is_its_text() {
    let e = Error::message(String::from("boom"));
    assert_eq!(e.to_text(), "boom");
    assert_eq!(e.into_inner().to_string(), "boom");
    let e = Error::from_anyhow(anyhow::Error::msg("x"));
    assert_eq!(e.to_text(), "x");
}

#[test]
fn link_tracks_pending_fields() {
    let mut link = LinkState::new();
    assert_eq!(link.take_changes(), Some(VERSION_FLAG));
    assert_eq!(link.take_changes(), Some(0));
    link.set_context(b"ctx");
    link.set_context(b"ctx");
    link.name_changed();
    assert_eq!(link.take_changes(), Some(CONTEXT_FLAG | NAME_FLAG));
    link.set_context(b"ctx");
    assert_eq!(link.take_changes(), Some(0));
    assert!(link.disable());
    assert!(!link.disable());
    assert_eq!(link.take_changes(), None);
    link.reconnect(true);
    assert_eq!(link.take_changes(), Some(ALL_FLAGS));
}

#[test]
fn long_context_is_cut_at_256_bytes() {
    let mut link = LinkState::new();
    let long = vec![7u8; 300];
    link.set_context(&long);
    link.take_changes();
    // The stored context is the first 256 bytes, so the long one still
    // differs from it.
    link.set_context(&long);
    assert_eq!(link.take_changes(), Some(CONTEXT_FLAG));
    link.set_context(&long[..256]);
    assert_eq!(link.take_changes(), Some(0));
}

#[test]
fn times_of_day_are_zero_padded() {
    assert_eq!(time_text(9, 5, 30, 7), "09:05:30.007");
    assert_eq!(time_text(23, 59, 0, 42), "23:59:00.042");
    assert_eq!(time_text(0, 0, 0, 0), "00:00:00.000");
    assert_eq!(time_text(12, 34, 56, 789), "12:34:56.789");
    // A field too large for its width keeps all its digits.
    assert_eq!(time_text(123, 1, 1, 1234), "123:01:01.1234");
}
