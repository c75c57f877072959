use vstd::prelude::*;

use crate::ids::{zero_id, PeerId, RemoteId};
use crate::state::State;
use crate::values::{prop, Key, Properties, Value, ValueView};

verus! {

/// The property map after the entries `s` were set in turn.
pub open spec fn props_loaded(m: Map<Key, ValueView>, s: Seq<(Key, Value)>) -> Map<Key, ValueView>
    decreases s.len(),
{
    if s.len() == 0 {
        m
    } else {
        props_loaded(m, s.drop_last()).insert(s.last().0, s.last().1@)
    }
}

/// Whether `u` is the single update that sets `key` to `v`.
pub open spec fn single_update(u: Seq<(Key, Value)>, key: Key, v: ValueView) -> bool {
    u.len() == 1 && u[0].0 == key && u[0].1@ == v
}

/// The settings panel of one object: the object and the properties it
/// shows, kept in step with the server.
pub struct ObjectSettings {
    target: RemoteId,
    properties: Properties,
}

impl ObjectSettings {
    /// The object whose settings these are.
    pub closed spec fn target_of(&self) -> RemoteId {
        self.target
    }

    /// The properties shown.
    pub closed spec fn props(&self) -> Map<Key, ValueView> {
        self.properties@
    }

    pub closed spec fn wf(&self) -> bool {
        self.properties.wf()
    }

    pub fn new(target: RemoteId) -> (r: ObjectSettings)
        ensures
            r.wf(),
            r.target_of() == target,
            r.props() == Map::<Key, ValueView>::empty(),
    {
        ObjectSettings { target, properties: Properties::new() }
    }

    /// The object whose settings these are.
    pub fn target(&self) -> (r: RemoteId)
        ensures
            r == self.target_of(),
    {
        self.target
    }

    /// The value shown for `key`.
    pub fn get(&self, key: Key) -> (r: Option<&Value>)
        requires
            self.wf(),
        ensures
            match r {
                Some(v) => self.props().contains_key(key) && v@ == self.props()[key],
                None => !self.props().contains_key(key),
            },
    {
        self.properties.get(key)
    }

    /// The server sent the object's settings: each is set in turn.
    pub fn load(&mut self, props: Vec<(Key, Value)>)
        requires
            old(self).wf(),
        ensures
            final(self).wf(),
            final(self).target_of() == old(self).target_of(),
            final(self).props() == props_loaded(old(self).props(), props@),
    {
        let ghost all = props@;
        let mut props = props;
        let ghost mut k: int = 0;
        proof {
            assert(all.skip(0) =~= all);
            assert(all.take(0) =~= Seq::<(Key, Value)>::empty());
        }
        while props.len() > 0
            invariant
                0 <= k <= all.len(),
                props@ == all.skip(k),
                self.wf(),
                self.target == old(self).target,
                self.properties@ == props_loaded(old(self).properties@, all.take(k)),
            decreases props@.len(),
        {
            let (key, value) = props.remove(0);
            proof {
                assert(all[k] == (key, value));
                assert(all.take(k + 1).drop_last() =~= all.take(k));
                assert(all.take(k + 1).last() == all[k]);
            }
            self.properties.insert(key, value);
            proof {
                assert(props@ =~= all.skip(k + 1));
                k = k + 1;
            }
        }
        proof {
            assert(all.take(k) =~= all);
        }
    }

    /// An identifier setting was picked: it is stored, and where it differs
    /// from the identifier shown before, the update to send is returned.
    pub fn id_changed(&mut self, key: Key, id: RemoteId) -> (r: Option<Vec<(Key, Value)>>)
        requires
            old(self).wf(),
        ensures
            final(self).wf(),
            final(self).target_of() == old(self).target_of(),
            final(self).props() == old(self).props().insert(key, ValueView::Id(id.id)),
            r is Some <==> prop(old(self).props(), key).as_id() != id.id,
            r matches Some(u) ==> single_update(u@, key, ValueView::Id(id.id)),
    {
        let old_value = self.properties.replace(key, Value::Id(id.id));
        let same = match old_value {
            Some(v) => v.as_id().0 == id.id.0,
            None => id.id.0 == 0,
        };
        if same {
            None
        } else {
            Some(vec![(key, Value::Id(id.id))])
        }
    }

    /// A text setting was edited: it is stored, and where it differs from
    /// the text shown before, the update to send is returned.
    pub fn text_changed(&mut self, key: Key, value: &str) -> (r: Option<Vec<(Key, Value)>>)
        requires
            old(self).wf(),
        ensures
            final(self).wf(),
            final(self).target_of() == old(self).target_of(),
            final(self).props() == old(self).props().insert(key, ValueView::Text(value@)),
            r is Some <==> prop(old(self).props(), key).as_str() != value@,
            r matches Some(u) ==> single_update(u@, key, ValueView::Text(value@)),
    {
        let old_value = self.properties.replace(key, Value::Text(value.to_owned()));
        let same = match old_value {
            Some(v) => text_eq(v.as_str(), value),
            None => {
                proof {
                    if value@.len() == 0 {
                        assert(value@ =~= Seq::<char>::empty());
                    }
                }
                value.is_empty()
            },
        };
        if same {
            None
        } else {
            Some(vec![(key, Value::Text(value.to_owned()))])
        }
    }

    /// A flag setting was toggled: it is stored, and where it differs from
    /// the flag shown before, the update to send is returned.
    pub fn flag_changed(&mut self, key: Key, value: bool) -> (r: Option<Vec<(Key, Value)>>)
        requires
            old(self).wf(),
        ensures
            final(self).wf(),
            final(self).target_of() == old(self).target_of(),
            final(self).props() == old(self).props().insert(key, ValueView::Bool(value)),
            r is Some <==> prop(old(self).props(), key).as_bool() != value,
            r matches Some(u) ==> single_update(u@, key, ValueView::Bool(value)),
    {
        let old_value = self.properties.replace(key, Value::Bool(value));
        let same = match old_value {
            Some(v) => v.as_bool() == value,
            None => !value,
        };
        if same {
            None
        } else {
            Some(vec![(key, Value::Bool(value))])
        }
    }

    /// A property of some object changed: where it is this panel's object,
    /// the value is shown. Returns whether it was.
    pub fn remote_update(&mut self, id: RemoteId, key: Key, value: Value) -> (r: bool)
        requires
            old(self).wf(),
        ensures
            final(self).wf(),
            final(self).target_of() == old(self).target_of(),
            r == (id == old(self).target_of()),
            r ==> final(self).props() == old(self).props().insert(key, value@),
            !r ==> final(self).props() == old(self).props(),
    {
        if !id.same(&self.target) {
            return false;
        }
        self.properties.insert(key, value);
        true
    }
}

/// Whether two texts are the same, character by character.
pub fn text_eq(a: &str, b: &str) -> (r: bool)
    ensures
        r == (a@ == b@),
{
    let ab = a.as_bytes();
    let bb = b.as_bytes();
    let same = crate::sort_key::compare_bytes(ab, bb) == crate::sort_key::Cmp::Equal;
    proof {
        vstd::utf8::encode_utf8_decode_utf8(a@);
        vstd::utf8::encode_utf8_decode_utf8(b@);
    }
    same
}

/// The room settings panel's name, background image and grid switch (its
/// extent is kept by the panel itself).
pub struct RoomSettings {
    pub name: State<String>,
    pub background: State<RemoteId>,
    pub show_grid: State<bool>,
}

impl RoomSettings {
    /// A panel with no name, no background and no grid.
    pub fn new() -> (r: RoomSettings)
        ensures
            r.name.value()@ == Seq::<char>::empty(),
            r.background.value() == zero_id(),
            !r.show_grid.value(),
    {
        RoomSettings {
            name: State::new(String::new()),
            background: State::new(RemoteId::zero()),
            show_grid: State::new(false),
        }
    }

    /// Takes in a property of the room; returns whether the panel changed.
    /// Other keys change nothing.
    pub fn update_property(&mut self, key: Key, value: &Value) -> (r: bool)
        ensures
            key == Key::Name ==> {
                &&& r == (old(self).name.value()@ != value@.as_str())
                &&& final(self).name.value()@ == value@.as_str()
                &&& final(self).background.value() == old(self).background.value()
                &&& final(self).show_grid.value() == old(self).show_grid.value()
            },
            key == Key::RoomBackground ==> {
                let b = RemoteId { peer_id: PeerId(0), id: value@.as_id() };
                &&& r == (b != old(self).background.value())
                &&& final(self).background.value() == b
                &&& final(self).name.value() == old(self).name.value()
                &&& final(self).show_grid.value() == old(self).show_grid.value()
            },
            key == Key::ShowGrid ==> {
                &&& r == (value@.as_bool() != old(self).show_grid.value())
                &&& final(self).show_grid.value() == value@.as_bool()
                &&& final(self).name.value() == old(self).name.value()
                &&& final(self).background.value() == old(self).background.value()
            },
            key != Key::Name && key != Key::RoomBackground && key != Key::ShowGrid ==> {
                &&& !r
                &&& final(self).name.value() == old(self).name.value()
                &&& final(self).background.value() == old(self).background.value()
                &&& final(self).show_grid.value() == old(self).show_grid.value()
            },
    {
        match key {
            Key::Name => self.name.update_str(value.as_str()),
            Key::RoomBackground => self.background.update(RemoteId::local(value.as_id())),
            Key::ShowGrid => self.show_grid.update(value.as_bool()),
            _ => false,
        }
    }
}

/// The name and image shown by the token and static settings panels (their
/// colors and sizes are kept by the panels themselves).
pub struct ImageSettings {
    pub name: State<String>,
    pub image: State<RemoteId>,
}

impl ImageSettings {
    /// A panel with no name and no image.
    pub fn new() -> (r: ImageSettings)
        ensures
            r.name.value()@ == Seq::<char>::empty(),
            r.image.value() == zero_id(),
    {
        ImageSettings { name: State::new(String::new()), image: State::new(RemoteId::zero()) }
    }

    /// Takes in a property of the object; returns whether the panel
    /// changed. Where the image changed, its preview is to be loaded again.
    /// Other keys change nothing.
    pub fn update_property(&mut self, key: Key, value: &Value) -> (r: bool)
        ensures
            key == Key::Name ==> {
                &&& r == (old(self).name.value()@ != value@.as_str())
                &&& final(self).name.value()@ == value@.as_str()
                &&& final(self).image.value() == old(self).image.value()
            },
            key == Key::ImageId ==> {
                let i = RemoteId { peer_id: PeerId(0), id: value@.as_id() };
                &&& r == (i != old(self).image.value())
                &&& final(self).image.value() == i
                &&& final(self).name.value() == old(self).name.value()
            },
            key != Key::Name && key != Key::ImageId ==> {
                &&& !r
                &&& final(self).name.value() == old(self).name.value()
                &&& final(self).image.value() == old(self).image.value()
            },
    {
        match key {
            Key::Name => self.name.update_str(value.as_str()),
            Key::ImageId => self.image.update(RemoteId::local(value.as_id())),
            _ => false,
        }
    }
}

} // verus!
