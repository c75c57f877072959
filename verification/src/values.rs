use vstd::prelude::*;

use crate::id_map::{
    entries_map, has_key, keys_distinct, lemma_entries_map_at, lemma_entries_map_push,
    lemma_entries_map_remove,
};
use crate::ids::{zero_stable_id, Id, StableId};

verus! {

/// The name of a property of an object or a peer.
#[derive(Debug, Clone, Copy, PartialEq, Eq, Structural)]
pub enum Key {
    Transform,
    Locked,
    LookAt,
    ImageId,
    Color,
    Radius,
    Speed,
    Name,
    Hidden,
    Width,
    Height,
    Expanded,
    RoomBackground,
    RoomExtent,
    ShowGrid,
    Group,
    Sort,
    LocalHidden,
    Room,
    PeerName,
    MumbleObject,
    MumbleFollow,
    Unknown(u32),
}

/// The type of a remote object.
#[derive(Debug, Clone, Copy, PartialEq, Eq, Structural)]
pub enum Type {
    Token,
    Static,
    Group,
    Room,
    Unknown(u32),
}

/// The value of a property.
#[derive(Debug)]
pub enum Value {
    Empty,
    Bool(bool),
    Id(Id),
    Bytes(Vec<u8>),
    Text(String),
    StableId(StableId),
}

/// What a property value holds.
pub enum ValueView {
    Empty,
    Bool(bool),
    Id(Id),
    Bytes(Seq<u8>),
    Text(Seq<char>),
    StableId(StableId),
}

impl ValueView {
    /// The value read as a flag: `false` unless it is a flag.
    pub open spec fn as_bool(self) -> bool {
        match self {
            ValueView::Bool(b) => b,
            _ => false,
        }
    }

    /// The value read as an identifier: zero unless it is one.
    pub open spec fn as_id(self) -> Id {
        match self {
            ValueView::Id(id) => id,
            _ => Id(0),
        }
    }

    /// The value read as bytes: empty unless it is bytes.
    pub open spec fn as_bytes(self) -> Seq<u8> {
        match self {
            ValueView::Bytes(b) => b,
            _ => Seq::empty(),
        }
    }

    /// The value read as text: empty unless it is text.
    pub open spec fn as_str(self) -> Seq<char> {
        match self {
            ValueView::Text(s) => s,
            _ => Seq::empty(),
        }
    }

    /// The value read as a stable identifier: zero unless it is one.
    pub open spec fn as_stable_id(self) -> StableId {
        match self {
            ValueView::StableId(id) => id,
            _ => zero_stable_id(),
        }
    }
}

impl View for Value {
    type V = ValueView;

    open spec fn view(&self) -> ValueView {
        match self {
            Value::Empty => ValueView::Empty,
            Value::Bool(b) => ValueView::Bool(*b),
            Value::Id(id) => ValueView::Id(*id),
            Value::Bytes(b) => ValueView::Bytes(b@),
            Value::Text(s) => ValueView::Text(s@),
            Value::StableId(id) => ValueView::StableId(*id),
        }
    }
}

/// Copies a byte string.
pub fn copy_bytes(b: &[u8]) -> (r: Vec<u8>)
    ensures
        r@ == b@,
{
    let mut r: Vec<u8> = Vec::new();
    let mut i: usize = 0;
    while i < b.len()
        invariant
            0 <= i <= b@.len(),
            r@ == b@.take(i as int),
        decreases b@.len() - i,
    {
        r.push(b[i]);
        i = i + 1;
        assert(r@ =~= b@.take(i as int));
    }
    assert(b@.take(i as int) =~= b@);
    r
}

impl Value {
    pub fn as_bool(&self) -> (r: bool)
        ensures
            r == self@.as_bool(),
    {
        match self {
            Value::Bool(b) => *b,
            _ => false,
        }
    }

    pub fn as_id(&self) -> (r: Id)
        ensures
            r == self@.as_id(),
    {
        match self {
            Value::Id(id) => *id,
            _ => Id(0),
        }
    }

    /// A copy of the bytes the value holds.
    pub fn as_bytes(&self) -> (r: Vec<u8>)
        ensures
            r@ == self@.as_bytes(),
    {
        match self {
            Value::Bytes(b) => copy_bytes(b.as_slice()),
            _ => {
                let r: Vec<u8> = Vec::new();
                assert(r@ =~= Seq::<u8>::empty());
                r
            },
        }
    }

    pub fn as_str(&self) -> (r: &str)
        ensures
            r@ == self@.as_str(),
    {
        match self {
            Value::Text(s) => s.as_str(),
            _ => {
                let e = "";
                proof {
                    reveal_strlit("");
                }
                assert(e@ =~= Seq::<char>::empty());
                e
            },
        }
    }

    pub fn as_stable_id(&self) -> (r: StableId)
        ensures
            r == self@.as_stable_id(),
    {
        match self {
            Value::StableId(id) => *id,
            _ => StableId::zero(),
        }
    }
}

} // verus!

verus! {

/// The value of a property in a property map, empty where it is missing.
pub open spec fn prop(m: Map<Key, ValueView>, k: Key) -> ValueView {
    if m.contains_key(k) {
        m[k]
    } else {
        ValueView::Empty
    }
}

/// The list of entries seen through the values' views.
pub open spec fn entry_views(s: Seq<(Key, Value)>) -> Seq<(Key, ValueView)> {
    s.map_values(|e: (Key, Value)| (e.0, e.1@))
}

/// A set of properties, each key at most once.
#[derive(Debug)]
pub struct Properties {
    entries: Vec<(Key, Value)>,
}

impl View for Properties {
    type V = Map<Key, ValueView>;

    closed spec fn view(&self) -> Map<Key, ValueView> {
        entries_map(entry_views(self.entries@))
    }
}

impl Properties {
    /// No key is stored twice.
    pub closed spec fn wf(&self) -> bool {
        keys_distinct(entry_views(self.entries@))
    }

    pub fn new() -> (r: Properties)
        ensures
            r.wf(),
            r@ == Map::<Key, ValueView>::empty(),
    {
        let r = Properties { entries: Vec::new() };
        assert(entry_views(r.entries@) =~= Seq::empty());
        assert(r@ =~= Map::<Key, ValueView>::empty());
        r
    }

    fn find(&self, key: Key) -> (r: Option<usize>)
        requires
            self.wf(),
        ensures
            match r {
                Some(i) => i < self.entries@.len() && self.entries@[i as int].0 == key,
                None => !has_key(entry_views(self.entries@), key),
            },
    {
        let mut i: usize = 0;
        while i < self.entries.len()
            invariant
                0 <= i <= self.entries@.len(),
                forall|j: int| 0 <= j < i ==> #[trigger] self.entries@[j].0 != key,
            decreases self.entries@.len() - i,
        {
            if self.entries[i].0 == key {
                return Some(i);
            }
            i = i + 1;
        }
        proof {
            let s = entry_views(self.entries@);
            assert forall|j: int| 0 <= j < s.len() implies #[trigger] s[j].0 != key by {
                assert(s[j].0 == self.entries@[j].0);
            }
        }
        None
    }

    pub fn get(&self, key: Key) -> (r: Option<&Value>)
        requires
            self.wf(),
        ensures
            match r {
                Some(v) => self@.contains_key(key) && v@ == self@[key],
                None => !self@.contains_key(key),
            },
    {
        match self.find(key) {
            Some(i) => {
                proof {
                    let s = entry_views(self.entries@);
                    assert(s[i as int] == (key, self.entries@[i as int].1@));
                    lemma_entries_map_at(s, i as int);
                }
                Some(&self.entries[i].1)
            },
            None => None,
        }
    }

    /// Sets the value of `key`.
    pub fn insert(&mut self, key: Key, value: Value)
        requires
            old(self).wf(),
        ensures
            final(self).wf(),
            final(self)@ == old(self)@.insert(key, value@),
    {
        let ghost v = value@;
        match self.find(key) {
            Some(i) => {
                proof {
                    let s = entry_views(self.entries@);
                    assert(s[i as int].0 == key);
                    lemma_entries_map_remove(s, i as int);
                }
                self.entries.remove(i);
                proof {
                    assert(entry_views(self.entries@) =~= entry_views(old(self).entries@).remove(
                        i as int,
                    ));
                }
            },
            None => {
                proof {
                    assert(!self@.contains_key(key));
                    assert(self@ =~= old(self)@.remove(key));
                }
            },
        }
        let ghost before = self.entries@;
        proof {
            let s = entry_views(self.entries@);
            assert(self@ == old(self)@.remove(key));
            assert(!self@.contains_key(key));
            assert(!has_key(s, key));
            lemma_entries_map_push(s, key, v);
        }
        self.entries.push((key, value));
        proof {
            assert(entry_views(self.entries@) =~= entry_views(before).push((key, v)));
        }
    }

    /// Sets the value of `key`, handing back the value it replaces.
    pub fn replace(&mut self, key: Key, value: Value) -> (r: Option<Value>)
        requires
            old(self).wf(),
        ensures
            final(self).wf(),
            final(self)@ == old(self)@.insert(key, value@),
            match r {
                Some(v) => old(self)@.contains_key(key) && v@ == old(self)@[key],
                None => !old(self)@.contains_key(key),
            },
    {
        let ghost v = value@;
        let prev = match self.find(key) {
            Some(i) => {
                proof {
                    let s = entry_views(self.entries@);
                    assert(s[i as int].0 == key);
                    lemma_entries_map_at(s, i as int);
                    lemma_entries_map_remove(s, i as int);
                }
                let (_, old_value) = self.entries.remove(i);
                proof {
                    assert(entry_views(self.entries@) =~= entry_views(old(self).entries@).remove(
                        i as int,
                    ));
                }
                Some(old_value)
            },
            None => {
                proof {
                    assert(!self@.contains_key(key));
                    assert(self@ =~= old(self)@.remove(key));
                }
                None
            },
        };
        let ghost before = self.entries@;
        proof {
            let s = entry_views(self.entries@);
            assert(self@ == old(self)@.remove(key));
            assert(!self@.contains_key(key));
            assert(!has_key(s, key));
            lemma_entries_map_push(s, key, v);
        }
        self.entries.push((key, value));
        proof {
            assert(entry_views(self.entries@) =~= entry_views(before).push((key, v)));
        }
        prev
    }

    pub fn get_bool(&self, key: Key) -> (r: bool)
        requires
            self.wf(),
        ensures
            r == prop(self@, key).as_bool(),
    {
        match self.get(key) {
            Some(v) => v.as_bool(),
            None => false,
        }
    }

    pub fn get_id(&self, key: Key) -> (r: Id)
        requires
            self.wf(),
        ensures
            r == prop(self@, key).as_id(),
    {
        match self.get(key) {
            Some(v) => v.as_id(),
            None => Id(0),
        }
    }

    pub fn get_bytes(&self, key: Key) -> (r: Vec<u8>)
        requires
            self.wf(),
        ensures
            r@ == prop(self@, key).as_bytes(),
    {
        match self.get(key) {
            Some(v) => v.as_bytes(),
            None => {
                let r: Vec<u8> = Vec::new();
                assert(r@ =~= Seq::<u8>::empty());
                r
            },
        }
    }

    pub fn get_str(&self, key: Key) -> (r: &str)
        requires
            self.wf(),
        ensures
            r@ == prop(self@, key).as_str(),
    {
        match self.get(key) {
            Some(v) => v.as_str(),
            None => {
                let e = "";
                proof {
                    reveal_strlit("");
                }
                assert(e@ =~= Seq::<char>::empty());
                e
            },
        }
    }

    pub fn get_stable_id(&self, key: Key) -> (r: StableId)
        requires
            self.wf(),
        ensures
            r == prop(self@, key).as_stable_id(),
    {
        match self.get(key) {
            Some(v) => v.as_stable_id(),
            None => StableId::zero(),
        }
    }
}

} // verus!

verus! {

/// An object as a peer announces it: its id, its type and its properties.
#[derive(Debug)]
pub struct RemoteObject {
    pub id: Id,
    pub ty: Type,
    pub props: Properties,
}

/// A peer as the server announces it.
#[derive(Debug)]
pub struct RemotePeer {
    pub id: crate::ids::PeerId,
    pub public_key: crate::ids::PublicKey,
    pub props: Properties,
}

} // verus!
