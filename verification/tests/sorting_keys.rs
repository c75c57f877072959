use mumbler::children::Children;
use mumbler::ids::{Id, PeerId, RemoteId};
use mumbler::sort_key::{compare_bytes, Cmp, SortKey};

fn rid(p: u32, i: u32) -> RemoteId {
    RemoteId::new(PeerId(p), Id(i))
}

#[test]
fn bytes_compare_lexicographically() {
    assert_eq!(compare_bytes(&[1, 2], &[1, 3]), Cmp::Less);
    assert_eq!(compare_bytes(&[1, 2], &[1, 2]), Cmp::Equal);
    assert_eq!(compare_bytes(&[2], &[1, 9, 9]), Cmp::Greater);
    assert_eq!(compare_bytes(&[1], &[1, 0]), Cmp::Less);
    assert_eq!(compare_bytes(&[], &[]), Cmp::Equal);
}

#[test]
fn sort_key_breaks_ties_by_id() {
    let k = SortKey { sort: vec![5], id: rid(1, 2) };
    assert_eq!(k.compare(&[5], rid(1, 3)), Cmp::Less);
    assert_eq!(k.compare(&[5], rid(1, 2)), Cmp::Equal);
    assert_eq!(k.compare(&[4], rid(9, 9)), Cmp::Greater);
}

#[test]
fn children_stay_sorted_and_unique() {
    let mut c = Children::new();
    assert!(c.insert(SortKey { sort: vec![3], id: rid(1, 1) }));
    assert!(c.insert(SortKey { sort: vec![1], id: rid(1, 2) }));
    assert!(c.insert(SortKey { sort: vec![2], id: rid(1, 3) }));
    assert!(!c.insert(SortKey { sort: vec![2], id: rid(1, 3) }));
    assert!(c.insert(SortKey { sort: vec![2], id: rid(0, 9) }));
    assert_eq!(c.ids(), vec![rid(1, 2), rid(0, 9), rid(1, 3), rid(1, 1)]);
    assert_eq!(c.len(), 4);
    assert!(c.remove(&[2], rid(1, 3)));
    assert!(!c.remove(&[2], rid(1, 3)));
    assert_eq!(c.ids(), vec![rid(1, 2), rid(0, 9), rid(1, 1)]);
}

#[test]
fn children_retain_by_peer() {
    let mut c = Children::new();
    c.insert(SortKey { sort: vec![1], id: rid(1, 1) });
    c.insert(SortKey { sort: vec![2], id: rid(2, 1) });
    c.insert(SortKey { sort: vec![3], id: rid(1, 2) });
    c.retain_peers(&|p: PeerId| p.0 == 1);
    assert_eq!(c.ids(), vec![rid(1, 1), rid(1, 2)]);
}
