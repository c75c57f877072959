use vstd::prelude::*;

use crate::ids::{PeerId, PublicKey, RemoteId};

verus! {

/// Keys that can be compared in executable code.
pub trait MapKey: Copy {
    fn same_key(&self, other: &Self) -> (r: bool)
        ensures
            r == (*self == *other),
    ;
}

impl MapKey for RemoteId {
    fn same_key(&self, other: &Self) -> (r: bool) {
        self.same(other)
    }
}

impl MapKey for PeerId {
    fn same_key(&self, other: &Self) -> (r: bool) {
        self.0 == other.0
    }
}

impl MapKey for PublicKey {
    fn same_key(&self, other: &Self) -> (r: bool) {
        self.same(other)
    }
}

/// Whether no two entries share an identifier.
pub open spec fn keys_distinct<K, V>(s: Seq<(K, V)>) -> bool {
    forall|i: int, j: int| 0 <= i < j < s.len() ==> #[trigger] s[i].0 != #[trigger] s[j].0
}

/// Whether some entry has identifier `k`.
pub open spec fn has_key<K, V>(s: Seq<(K, V)>, k: K) -> bool {
    exists|i: int| 0 <= i < s.len() && #[trigger] s[i].0 == k
}

/// The map that a list of entries stands for.
pub open spec fn entries_map<K, V>(s: Seq<(K, V)>) -> Map<K, V> {
    Map::new(
        |k: K| has_key(s, k),
        |k: K| s[choose|i: int| 0 <= i < s.len() && #[trigger] s[i].0 == k].1,
    )
}

pub proof fn lemma_entries_map_at<K, V>(s: Seq<(K, V)>, i: int)
    requires
        keys_distinct(s),
        0 <= i < s.len(),
    ensures
        entries_map(s).contains_key(s[i].0),
        entries_map(s)[s[i].0] == s[i].1,
{
    assert(has_key(s, s[i].0));
    let j = choose|j: int| 0 <= j < s.len() && #[trigger] s[j].0 == s[i].0;
    if j != i {
        if j < i {
            assert(s[j].0 != s[i].0);
        } else {
            assert(s[i].0 != s[j].0);
        }
    }
}

/// Every entry of a distinct list is in its map with its own value.
pub proof fn lemma_entries_map_all<K, V>(s: Seq<(K, V)>)
    requires
        keys_distinct(s),
    ensures
        forall|i: int|
            0 <= i < s.len() ==> #[trigger] entries_map(s).contains_key(s[i].0) && entries_map(
                s,
            )[s[i].0] == s[i].1,
{
    assert forall|i: int| 0 <= i < s.len() implies #[trigger] entries_map(s).contains_key(
        s[i].0,
    ) && entries_map(s)[s[i].0] == s[i].1 by {
        lemma_entries_map_at(s, i);
    }
}

pub proof fn lemma_entries_map_push<K, V>(s: Seq<(K, V)>, k: K, v: V)
    requires
        keys_distinct(s),
        !has_key(s, k),
    ensures
        keys_distinct(s.push((k, v))),
        entries_map(s.push((k, v))) == entries_map(s).insert(k, v),
{
    let t = s.push((k, v));
    assert forall|i: int, j: int| 0 <= i < j < t.len() implies #[trigger] t[i].0
        != #[trigger] t[j].0 by {
        if j == s.len() {
            assert(s[i].0 == t[i].0);
        } else {
            assert(s[i].0 != s[j].0);
        }
    }
    lemma_entries_map_all(s);
    lemma_entries_map_all(t);
    assert forall|x: K| #[trigger] entries_map(t).contains_key(x) <==> entries_map(
        s,
    ).insert(k, v).contains_key(x) by {
        if has_key(t, x) {
            let i = choose|i: int| 0 <= i < t.len() && #[trigger] t[i].0 == x;
            if i < s.len() {
                assert(s[i].0 == x);
            }
        }
        if has_key(s, x) {
            let i = choose|i: int| 0 <= i < s.len() && #[trigger] s[i].0 == x;
            assert(t[i].0 == x);
        }
        if x == k {
            assert(t[s.len() as int].0 == x);
        }
    }
    assert forall|x: K| #[trigger] entries_map(t).contains_key(x) implies entries_map(
        t,
    )[x] == entries_map(s).insert(k, v)[x] by {
        let i = choose|i: int| 0 <= i < t.len() && #[trigger] t[i].0 == x;
        assert(entries_map(t)[t[i].0] == t[i].1);
        if i < s.len() {
            assert(t[i] == s[i]);
            assert(entries_map(s)[s[i].0] == s[i].1);
        }
    }
    assert(entries_map(t) =~= entries_map(s).insert(k, v));
}

pub proof fn lemma_entries_map_remove<K, V>(s: Seq<(K, V)>, i: int)
    requires
        keys_distinct(s),
        0 <= i < s.len(),
    ensures
        keys_distinct(s.remove(i)),
        entries_map(s.remove(i)) == entries_map(s).remove(s[i].0),
{
    let t = s.remove(i);
    let k = s[i].0;
    assert forall|a: int, b: int| 0 <= a < b < t.len() implies #[trigger] t[a].0
        != #[trigger] t[b].0 by {
        let a2 = if a < i { a } else { a + 1 };
        let b2 = if b < i { b } else { b + 1 };
        assert(t[a] == s[a2]);
        assert(t[b] == s[b2]);
        assert(s[a2].0 != s[b2].0);
    }
    lemma_entries_map_all(s);
    lemma_entries_map_all(t);
    assert forall|x: K| #[trigger] entries_map(t).contains_key(x) <==> entries_map(
        s,
    ).remove(k).contains_key(x) by {
        if has_key(t, x) {
            let a = choose|a: int| 0 <= a < t.len() && #[trigger] t[a].0 == x;
            let a2 = if a < i { a } else { a + 1 };
            assert(s[a2].0 == x);
            if a2 != i {
                if a2 < i {
                    assert(s[a2].0 != s[i].0);
                } else {
                    assert(s[i].0 != s[a2].0);
                }
            }
        }
        if has_key(s, x) && x != k {
            let a = choose|a: int| 0 <= a < s.len() && #[trigger] s[a].0 == x;
            assert(a != i);
            if a < i {
                assert(t[a].0 == x);
            } else {
                assert(t[a - 1].0 == x);
            }
        }
    }
    assert forall|x: K| #[trigger] entries_map(t).contains_key(x) implies entries_map(
        t,
    )[x] == entries_map(s).remove(k)[x] by {
        let a = choose|a: int| 0 <= a < t.len() && #[trigger] t[a].0 == x;
        let a2 = if a < i { a } else { a + 1 };
        assert(t[a] == s[a2]);
        assert(entries_map(t)[t[a].0] == t[a].1);
        assert(entries_map(s)[s[a2].0] == s[a2].1);
    }
    assert(entries_map(t) =~= entries_map(s).remove(k));
}

/// A finite map, kept as a list of entries with distinct keys.

pub struct KeyMap<K, V> {
    entries: Vec<(K, V)>,
}

/// A finite map keyed by object identifiers.
pub type IdMap<V> = KeyMap<RemoteId, V>;

impl<K, V> View for KeyMap<K, V> {
    type V = Map<K, V>;

    closed spec fn view(&self) -> Map<K, V> {
        entries_map(self.entries@)
    }
}

impl<K: MapKey, V> KeyMap<K, V> {
    /// No identifier is stored twice.
    pub closed spec fn wf(&self) -> bool {
        keys_distinct(self.entries@)
    }

    /// A map holds finitely many identifiers.
    pub proof fn lemma_finite(&self)
        ensures
            self@.dom().finite(),
    {
        broadcast use vstd::seq_lib::seq_to_set_is_finite;

        let keys = self.entries@.map_values(|e: (K, V)| e.0);
        assert forall|k: K| #[trigger] self@.dom().contains(k) <==> keys.to_set().contains(k) by {
            if has_key(self.entries@, k) {
                let i = choose|i: int| 0 <= i < self.entries@.len() && #[trigger] self.entries@[i].0 == k;
                assert(keys[i] == k);
            }
            if keys.contains(k) {
                let i = choose|i: int| 0 <= i < keys.len() && keys[i] == k;
                assert(self.entries@[i].0 == k);
            }
        }
        assert(self@.dom() =~= keys.to_set());
    }

    pub fn new() -> (r: KeyMap<K, V>)
        ensures
            r.wf(),
            r@ == Map::<K, V>::empty(),
    {
        let r = KeyMap { entries: Vec::new() };
        assert(r@ =~= Map::<K, V>::empty());
        r
    }

    fn find(&self, k: &K) -> (r: Option<usize>)
        requires
            self.wf(),
        ensures
            match r {
                Some(i) => i < self.entries@.len() && self.entries@[i as int].0 == *k,
                None => !has_key(self.entries@, *k),
            },
    {
        let mut i: usize = 0;
        while i < self.entries.len()
            invariant
                0 <= i <= self.entries@.len(),
                forall|j: int| 0 <= j < i ==> #[trigger] self.entries@[j].0 != *k,
            decreases self.entries@.len() - i,
        {
            if self.entries[i].0.same_key(k) {
                return Some(i);
            }
            i = i + 1;
        }
        None
    }

    pub fn contains_key(&self, k: &K) -> (r: bool)
        requires
            self.wf(),
        ensures
            r == self@.contains_key(*k),
    {
        match self.find(k) {
            Some(i) => {
                proof {
                    lemma_entries_map_at(self.entries@, i as int);
                }
                true
            },
            None => false,
        }
    }

    pub fn get(&self, k: &K) -> (r: Option<&V>)
        requires
            self.wf(),
        ensures
            match r {
                Some(v) => self@.contains_key(*k) && *v == self@[*k],
                None => !self@.contains_key(*k),
            },
    {
        match self.find(k) {
            Some(i) => {
                proof {
                    lemma_entries_map_at(self.entries@, i as int);
                }
                Some(&self.entries[i].1)
            },
            None => None,
        }
    }

    /// Removes the entry for `k`, returning its value.
    pub fn remove(&mut self, k: &K) -> (r: Option<V>)
        requires
            old(self).wf(),
        ensures
            final(self).wf(),
            final(self)@ == old(self)@.remove(*k),
            match r {
                Some(v) => old(self)@.contains_key(*k) && v == old(self)@[*k],
                None => !old(self)@.contains_key(*k),
            },
    {
        match self.find(k) {
            Some(i) => {
                proof {
                    lemma_entries_map_at(self.entries@, i as int);
                    lemma_entries_map_remove(self.entries@, i as int);
                }
                let (_, v) = self.entries.remove(i);
                Some(v)
            },
            None => {
                proof {
                    assert(self@ =~= self@.remove(*k));
                }
                None
            },
        }
    }

    /// Sets the value for `k`, returning the value it replaces.
    pub fn insert(&mut self, k: K, v: V) -> (r: Option<V>)
        requires
            old(self).wf(),
        ensures
            final(self).wf(),
            final(self)@ == old(self)@.insert(k, v),
            match r {
                Some(o) => old(self)@.contains_key(k) && o == old(self)@[k],
                None => !old(self)@.contains_key(k),
            },
    {
        let r = self.remove(&k);
        proof {
            assert(!self@.contains_key(k));
            assert(!has_key(self.entries@, k));
            lemma_entries_map_push(self.entries@, k, v);
        }
        self.entries.push((k, v));
        proof {
            assert(self@ =~= old(self)@.insert(k, v));
        }
        r
    }

    /// The identifiers in the map, each once.
    pub fn keys(&self) -> (r: Vec<K>)
        requires
            self.wf(),
        ensures
            forall|i: int, j: int| 0 <= i < j < r@.len() ==> r@[i] != r@[j],
            forall|k: K| #[trigger] r@.contains(k) <==> self@.contains_key(k),
    {
        let mut r: Vec<K> = Vec::new();
        let mut i: usize = 0;
        while i < self.entries.len()
            invariant
                0 <= i <= self.entries@.len(),
                keys_distinct(self.entries@),
                r@.len() == i,
                forall|j: int| 0 <= j < i ==> #[trigger] r@[j] == self.entries@[j].0,
            decreases self.entries@.len() - i,
        {
            r.push(self.entries[i].0);
            i = i + 1;
        }
        proof {
            lemma_entries_map_all(self.entries@);
            assert forall|a: int, b: int| 0 <= a < b < r@.len() implies r@[a] != r@[b] by {
                assert(self.entries@[a].0 != self.entries@[b].0);
            }
            assert forall|k: K| #[trigger] r@.contains(k) <==> self@.contains_key(k) by {
                if self@.contains_key(k) {
                    let j = choose|j: int|
                        0 <= j < self.entries@.len() && #[trigger] self.entries@[j].0 == k;
                    assert(r@[j] == k);
                }
            }
        }
        r
    }
}

impl<V> KeyMap<RemoteId, V> {
    /// Keeps only the entries whose identifier belongs to a peer that
    /// `keep` accepts.
    pub fn retain_peers<F: Fn(PeerId) -> bool>(&mut self, keep: &F)
        requires
            old(self).wf(),
            forall|p: PeerId| keep.requires((p,)),
        ensures
            final(self).wf(),
            forall|k: RemoteId| #[trigger]
                final(self)@.contains_key(k) ==> old(self)@.contains_key(k) && final(self)@[k]
                    == old(self)@[k] && keep.ensures((k.peer_id,), true),
            forall|k: RemoteId| #[trigger]
                old(self)@.contains_key(k) && !final(self)@.contains_key(k) ==> keep.ensures(
                    (k.peer_id,),
                    false,
                ),
    {
        let keys = self.keys();
        proof {
            assert forall|a: int| 0 <= a < keys@.len() implies self@.contains_key(
                #[trigger] keys@[a],
            ) by {
                assert(keys@.contains(keys@[a]));
            }
        }
        let mut i: usize = 0;
        while i < keys.len()
            invariant
                0 <= i <= keys@.len(),
                self.wf(),
                forall|p: PeerId| keep.requires((p,)),
                forall|a: int, b: int| 0 <= a < b < keys@.len() ==> keys@[a] != keys@[b],
                forall|k: RemoteId| #[trigger] keys@.contains(k) <==> old(self)@.contains_key(k),
                forall|k: RemoteId| #[trigger]
                    self@.contains_key(k) ==> old(self)@.contains_key(k) && self@[k] == old(
                        self,
                    )@[k],
                forall|a: int|
                    i <= a < keys@.len() ==> self@.contains_key(#[trigger] keys@[a]),
                forall|a: int|
                    0 <= a < i ==> (self@.contains_key(#[trigger] keys@[a]) && keep.ensures(
                        (keys@[a].peer_id,),
                        true,
                    )) || (!self@.contains_key(keys@[a]) && keep.ensures(
                        (keys@[a].peer_id,),
                        false,
                    )),
            decreases keys@.len() - i,
        {
            let k = keys[i];
            if !keep(k.peer_id) {
                self.remove(&k);
                proof {
                    assert forall|a: int| i < a < keys@.len() implies self@.contains_key(
                        #[trigger] keys@[a],
                    ) by {
                        assert(keys@[a] != keys@[i as int]);
                    }
                    assert forall|a: int| 0 <= a < i implies (self@.contains_key(
                        #[trigger] keys@[a],
                    ) && keep.ensures((keys@[a].peer_id,), true)) || (!self@.contains_key(
                        keys@[a],
                    ) && keep.ensures((keys@[a].peer_id,), false)) by {
                        assert(keys@[a] != keys@[i as int]);
                    }
                }
            }
            i = i + 1;
        }
        proof {
            assert forall|k: RemoteId| #[trigger] self@.contains_key(k) implies keep.ensures(
                (k.peer_id,),
                true,
            ) by {
                assert(keys@.contains(k));
                let a = choose|a: int| 0 <= a < keys@.len() && keys@[a] == k;
            }
            assert forall|k: RemoteId| #[trigger]
                old(self)@.contains_key(k) && !self@.contains_key(k) implies keep.ensures(
                (k.peer_id,),
                false,
            ) by {
                assert(keys@.contains(k));
                let a = choose|a: int| 0 <= a < keys@.len() && keys@[a] == k;
            }
        }
    }
}

} // verus!
