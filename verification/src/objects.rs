use vstd::prelude::*;
use vstd::std_specs::cmp::PartialEqSpec;

use crate::id_map::IdMap;
use crate::ids::{zero_id, Id, PeerId, RemoteId};
use crate::state::State;
use crate::values::{prop, Key, RemoteObject, Type, Value, ValueView};
use crate::visibility::Visibility;

verus! {

/// For byte vectors, `==` compares the bytes.
pub proof fn lemma_bytes_eq_spec(a: Vec<u8>, b: Vec<u8>)
    ensures
        a.eq_spec(&b) <==> a@ == b@,
{
    if a@ == b@ {
        assert forall|i: int| 0 <= i < a.len() implies a[i].eq_spec(&b[i]) by {
            assert(a@[i] == b@[i]);
        }
    }
    if a.eq_spec(&b) {
        assert forall|i: int| 0 <= i < a@.len() implies a@[i] == b@[i] by {
            assert(a[i].eq_spec(&b[i]));
        }
        assert(a@ =~= b@);
    }
}

/// What the kind-specific part of an object holds.
pub enum KindView {
    Token { locked: bool, image: Id },
    Static { locked: bool, image: Id, name: Seq<char>, hidden: bool },
    Group { locked: bool, expanded: bool },
    Room { background: Id, show_grid: bool },
}

/// What an object holds.
pub struct ObjectView {
    pub id: RemoteId,
    pub group: RemoteId,
    pub name: Seq<char>,
    pub hidden: bool,
    pub local_hidden: bool,
    pub sort: Seq<u8>,
    pub kind: KindView,
}

/// The kind-specific part of an object made from its type and properties,
/// or `None` for a type this client does not handle.
pub open spec fn spec_new_kind(ty: Type, props: Map<Key, ValueView>) -> Option<KindView> {
    match ty {
        Type::Token => Some(
            KindView::Token {
                locked: prop(props, Key::Locked).as_bool(),
                image: prop(props, Key::ImageId).as_id(),
            },
        ),
        Type::Static => Some(
            KindView::Static {
                locked: prop(props, Key::Locked).as_bool(),
                image: prop(props, Key::ImageId).as_id(),
                name: prop(props, Key::Name).as_str(),
                hidden: prop(props, Key::Hidden).as_bool(),
            },
        ),
        Type::Group => Some(
            KindView::Group {
                locked: prop(props, Key::Locked).as_bool(),
                expanded: prop(props, Key::Expanded).as_bool(),
            },
        ),
        Type::Room => Some(
            KindView::Room {
                background: prop(props, Key::RoomBackground).as_id(),
                show_grid: prop(props, Key::ShowGrid).as_bool(),
            },
        ),
        Type::Unknown(_) => None,
    }
}

/// The object that peer `peer` announces with `id`, `ty` and `props`.
pub open spec fn spec_new_object(peer: PeerId, id: Id, ty: Type, props: Map<Key, ValueView>) -> Option<
    ObjectView,
> {
    match spec_new_kind(ty, props) {
        Some(kind) => Some(
            ObjectView {
                id: RemoteId { peer_id: peer, id },
                group: RemoteId { peer_id: peer, id: prop(props, Key::Group).as_id() },
                name: prop(props, Key::Name).as_str(),
                hidden: prop(props, Key::Hidden).as_bool(),
                local_hidden: prop(props, Key::LocalHidden).as_bool(),
                sort: prop(props, Key::Sort).as_bytes(),
                kind,
            },
        ),
        None => None,
    }
}

/// The kind-specific part after property `key` is set to `v`.
pub open spec fn spec_kind_update(k: KindView, key: Key, v: ValueView) -> KindView {
    match k {
        KindView::Token { locked, image } => match key {
            Key::Locked => KindView::Token { locked: v.as_bool(), image },
            Key::ImageId => KindView::Token { locked, image: v.as_id() },
            _ => k,
        },
        KindView::Static { locked, image, name, hidden } => match key {
            Key::Locked => KindView::Static { locked: v.as_bool(), image, name, hidden },
            Key::ImageId => KindView::Static { locked, image: v.as_id(), name, hidden },
            Key::Name => KindView::Static { locked, image, name: v.as_str(), hidden },
            Key::Hidden => KindView::Static { locked, image, name, hidden: v.as_bool() },
            _ => k,
        },
        KindView::Group { locked, expanded } => match key {
            Key::Locked => KindView::Group { locked: v.as_bool(), expanded },
            Key::Expanded => KindView::Group { locked, expanded: v.as_bool() },
            _ => k,
        },
        KindView::Room { background, show_grid } => match key {
            Key::RoomBackground => KindView::Room { background: v.as_id(), show_grid },
            Key::ShowGrid => KindView::Room { background, show_grid: v.as_bool() },
            _ => k,
        },
    }
}

/// The object after property `key` is set to `v`.
pub open spec fn spec_update(o: ObjectView, key: Key, v: ValueView) -> ObjectView {
    match key {
        Key::Name => ObjectView { name: v.as_str(), ..o },
        Key::Hidden => ObjectView { hidden: v.as_bool(), ..o },
        Key::LocalHidden => ObjectView { local_hidden: v.as_bool(), ..o },
        Key::Group => ObjectView { group: RemoteId { peer_id: o.id.peer_id, id: v.as_id() }, ..o },
        Key::Sort => ObjectView { sort: v.as_bytes(), ..o },
        _ => ObjectView { kind: spec_kind_update(o.kind, key, v), ..o },
    }
}

/// An object made from an announcement takes each of its fields from the
/// announced property of the same key: its identifier and group are the
/// announcing peer's, and its kind, where this client handles the type,
/// carries the lock, image, expansion, background and grid properties that
/// the kind has. A type this client does not handle makes no object.
pub proof fn law_new_object_fields(peer: PeerId, id: Id, ty: Type, props: Map<Key, ValueView>)
    ensures
        spec_new_object(peer, id, ty, props) is None <==> ty is Unknown,
        spec_new_object(peer, id, ty, props) matches Some(o) ==> {
            &&& o.id == (RemoteId { peer_id: peer, id })
            &&& o.group == (RemoteId { peer_id: peer, id: prop(props, Key::Group).as_id() })
            &&& o.name == prop(props, Key::Name).as_str()
            &&& o.hidden == prop(props, Key::Hidden).as_bool()
            &&& o.local_hidden == prop(props, Key::LocalHidden).as_bool()
            &&& o.sort == prop(props, Key::Sort).as_bytes()
        },
        ty is Token ==> {
            let o = spec_new_object(peer, id, ty, props).unwrap();
            &&& o.kind is Token
            &&& o.kind->Token_locked == prop(props, Key::Locked).as_bool()
            &&& o.kind->Token_image == prop(props, Key::ImageId).as_id()
        },
        ty is Static ==> {
            let o = spec_new_object(peer, id, ty, props).unwrap();
            &&& o.kind is Static
            &&& o.kind->Static_locked == prop(props, Key::Locked).as_bool()
            &&& o.kind->Static_image == prop(props, Key::ImageId).as_id()
            &&& o.kind->Static_name == prop(props, Key::Name).as_str()
            &&& o.kind->Static_hidden == prop(props, Key::Hidden).as_bool()
        },
        ty is Group ==> {
            let o = spec_new_object(peer, id, ty, props).unwrap();
            &&& o.kind is Group
            &&& o.kind->Group_locked == prop(props, Key::Locked).as_bool()
            &&& o.kind->expanded == prop(props, Key::Expanded).as_bool()
        },
        ty is Room ==> {
            let o = spec_new_object(peer, id, ty, props).unwrap();
            &&& o.kind is Room
            &&& o.kind->background == prop(props, Key::RoomBackground).as_id()
            &&& o.kind->show_grid == prop(props, Key::ShowGrid).as_bool()
        },
{
}

/// Setting property `key` of an object to `v` sets the field of that key
/// and no other: the name, visibility, group (within the object's own
/// peer) and sort bytes take the value where the key is theirs; otherwise
/// the kind stays the same kind, and its lock, image, expansion, background
/// or grid takes the value where the key is theirs. The identifier never
/// changes.
pub proof fn law_update_fields(o: ObjectView, key: Key, v: ValueView)
    ensures
        spec_update(o, key, v).id == o.id,
        spec_update(o, key, v).name == if key == Key::Name {
            v.as_str()
        } else {
            o.name
        },
        spec_update(o, key, v).hidden == if key == Key::Hidden {
            v.as_bool()
        } else {
            o.hidden
        },
        spec_update(o, key, v).local_hidden == if key == Key::LocalHidden {
            v.as_bool()
        } else {
            o.local_hidden
        },
        spec_update(o, key, v).group == if key == Key::Group {
            RemoteId { peer_id: o.id.peer_id, id: v.as_id() }
        } else {
            o.group
        },
        spec_update(o, key, v).sort == if key == Key::Sort {
            v.as_bytes()
        } else {
            o.sort
        },
        o.kind is Token ==> {
            let k = spec_update(o, key, v).kind;
            &&& k is Token
            &&& k->Token_locked == if key == Key::Locked {
                v.as_bool()
            } else {
                o.kind->Token_locked
            }
            &&& k->Token_image == if key == Key::ImageId {
                v.as_id()
            } else {
                o.kind->Token_image
            }
        },
        o.kind is Static ==> {
            let k = spec_update(o, key, v).kind;
            &&& k is Static
            &&& k->Static_locked == if key == Key::Locked {
                v.as_bool()
            } else {
                o.kind->Static_locked
            }
            &&& k->Static_image == if key == Key::ImageId {
                v.as_id()
            } else {
                o.kind->Static_image
            }
            &&& k->Static_name == o.kind->Static_name
            &&& k->Static_hidden == o.kind->Static_hidden
        },
        o.kind is Group ==> {
            let k = spec_update(o, key, v).kind;
            &&& k is Group
            &&& k->Group_locked == if key == Key::Locked {
                v.as_bool()
            } else {
                o.kind->Group_locked
            }
            &&& k->expanded == if key == Key::Expanded {
                v.as_bool()
            } else {
                o.kind->expanded
            }
        },
        o.kind is Room ==> {
            let k = spec_update(o, key, v).kind;
            &&& k is Room
            &&& k->background == if key == Key::RoomBackground {
                v.as_id()
            } else {
                o.kind->background
            }
            &&& k->show_grid == if key == Key::ShowGrid {
                v.as_bool()
            } else {
                o.kind->show_grid
            }
        },
{
}

/// How visible an object is on its own.
pub open spec fn spec_visibility(o: ObjectView) -> Visibility {
    if o.local_hidden {
        Visibility::Nowhere
    } else if o.hidden {
        Visibility::Local
    } else {
        Visibility::Remote
    }
}

/// Whether an object is locked on its own; rooms never are.
pub open spec fn spec_is_locked(o: ObjectView) -> bool {
    match o.kind {
        KindView::Token { locked, .. } => locked,
        KindView::Static { locked, .. } => locked,
        KindView::Group { locked, .. } => locked,
        KindView::Room { .. } => false,
    }
}

/// An object hidden on this client is shown nowhere, whatever else holds;
/// one hidden from the others only is shown here; one hidden from no one is
/// shown to everyone. Tokens, statics and groups are locked as their lock
/// says, and rooms never are.
pub proof fn law_visibility_and_lock(o: ObjectView)
    ensures
        o.local_hidden ==> spec_visibility(o) == Visibility::Nowhere,
        !o.local_hidden && o.hidden ==> spec_visibility(o) == Visibility::Local,
        !o.local_hidden && !o.hidden ==> spec_visibility(o) == Visibility::Remote,
        o.kind is Token ==> spec_is_locked(o) == o.kind->Token_locked,
        o.kind is Static ==> spec_is_locked(o) == o.kind->Static_locked,
        o.kind is Group ==> spec_is_locked(o) == o.kind->Group_locked,
        o.kind is Room ==> !spec_is_locked(o),
{
}

/// A token: a movable piece standing for a character.
#[derive(Debug)]
pub struct TokenObject {
    pub locked: State<bool>,
    pub image: State<Id>,
}

/// A static image placed in a room.
#[derive(Debug)]
pub struct StaticObject {
    pub locked: State<bool>,
    pub image: State<Id>,
    pub name: State<String>,
    pub hidden: State<bool>,
}

/// A group of objects.
#[derive(Debug)]
pub struct GroupObject {
    pub locked: State<bool>,
    pub expanded: State<bool>,
}

/// A room, which holds the other objects.
#[derive(Debug)]
pub struct RoomObject {
    pub background: State<Id>,
    pub show_grid: State<bool>,
}

#[derive(Debug)]
pub enum ObjectKind {
    Token(TokenObject),
    Static(StaticObject),
    Group(GroupObject),
    Room(RoomObject),
}

impl View for ObjectKind {
    type V = KindView;

    open spec fn view(&self) -> KindView {
        match self {
            ObjectKind::Token(t) => KindView::Token {
                locked: t.locked.value(),
                image: t.image.value(),
            },
            ObjectKind::Static(s) => KindView::Static {
                locked: s.locked.value(),
                image: s.image.value(),
                name: s.name.value()@,
                hidden: s.hidden.value(),
            },
            ObjectKind::Group(g) => KindView::Group {
                locked: g.locked.value(),
                expanded: g.expanded.value(),
            },
            ObjectKind::Room(r) => KindView::Room {
                background: r.background.value(),
                show_grid: r.show_grid.value(),
            },
        }
    }
}

impl GroupObject {
    pub fn is_expanded(&self) -> (r: bool)
        ensures
            r == self.expanded.value(),
    {
        *self.expanded.get()
    }
}

/// An object of a room, as this client holds it.
#[derive(Debug)]
pub struct Object {
    pub id: RemoteId,
    pub group: State<RemoteId>,
    pub name: State<String>,
    pub hidden: State<bool>,
    pub local_hidden: State<bool>,
    pub sort: State<Vec<u8>>,
    pub kind: ObjectKind,
}

impl View for Object {
    type V = ObjectView;

    open spec fn view(&self) -> ObjectView {
        ObjectView {
            id: self.id,
            group: self.group.value(),
            name: self.name.value()@,
            hidden: self.hidden.value(),
            local_hidden: self.local_hidden.value(),
            sort: self.sort.value()@,
            kind: self.kind@,
        }
    }
}

impl Object {
    /// Builds the object that peer `peer_id` announces, or `None` for a type
    /// this client does not handle.
    pub fn new(peer_id: PeerId, o: &RemoteObject) -> (r: Option<Object>)
        requires
            o.props.wf(),
        ensures
            r is Some <==> spec_new_object(peer_id, o.id, o.ty, o.props@) is Some,
            r matches Some(x) ==> Some(x@) == spec_new_object(peer_id, o.id, o.ty, o.props@),
    {
        let kind = match o.ty {
            Type::Token => ObjectKind::Token(
                TokenObject {
                    locked: State::new(o.props.get_bool(Key::Locked)),
                    image: State::new(o.props.get_id(Key::ImageId)),
                },
            ),
            Type::Static => ObjectKind::Static(
                StaticObject {
                    locked: State::new(o.props.get_bool(Key::Locked)),
                    image: State::new(o.props.get_id(Key::ImageId)),
                    name: State::new(o.props.get_str(Key::Name).to_owned()),
                    hidden: State::new(o.props.get_bool(Key::Hidden)),
                },
            ),
            Type::Group => ObjectKind::Group(
                GroupObject {
                    locked: State::new(o.props.get_bool(Key::Locked)),
                    expanded: State::new(o.props.get_bool(Key::Expanded)),
                },
            ),
            Type::Room => ObjectKind::Room(
                RoomObject {
                    background: State::new(o.props.get_id(Key::RoomBackground)),
                    show_grid: State::new(o.props.get_bool(Key::ShowGrid)),
                },
            ),
            Type::Unknown(_) => {
                return None;
            },
        };
        Some(
            Object {
                id: RemoteId::new(peer_id, o.id),
                group: State::new(RemoteId::new(peer_id, o.props.get_id(Key::Group))),
                name: State::new(o.props.get_str(Key::Name).to_owned()),
                hidden: State::new(o.props.get_bool(Key::Hidden)),
                local_hidden: State::new(o.props.get_bool(Key::LocalHidden)),
                sort: State::new(o.props.get_bytes(Key::Sort)),
                kind,
            },
        )
    }

    /// The type of this object.
    pub fn ty(&self) -> (r: Type)
        ensures
            r == match self.kind@ {
                KindView::Token { .. } => Type::Token,
                KindView::Static { .. } => Type::Static,
                KindView::Group { .. } => Type::Group,
                KindView::Room { .. } => Type::Room,
            },
    {
        match self.kind {
            ObjectKind::Token(_) => Type::Token,
            ObjectKind::Static(_) => Type::Static,
            ObjectKind::Group(_) => Type::Group,
            ObjectKind::Room(_) => Type::Room,
        }
    }

    /// Sets property `key` to `value`; returns whether the object changed.
    pub fn update(&mut self, key: Key, value: &Value) -> (changed: bool)
        ensures
            final(self)@ == spec_update(old(self)@, key, value@),
            changed == (final(self)@ != old(self)@),
    {
        match key {
            Key::Name => self.name.update_str(value.as_str()),
            Key::Hidden => self.hidden.update(value.as_bool()),
            Key::LocalHidden => self.local_hidden.update(value.as_bool()),
            Key::Group => {
                let peer_id = self.id.peer_id;
                self.group.update(RemoteId::new(peer_id, value.as_id()))
            },
            Key::Sort => {
                let bytes = value.as_bytes();
                let ghost before = self.sort.value();
                let changed = self.sort.update(bytes);
                proof {
                    lemma_bytes_eq_spec(before, bytes);
                }
                changed
            },
            _ => match &mut self.kind {
                ObjectKind::Token(this) => match key {
                    Key::Locked => this.locked.update(value.as_bool()),
                    Key::ImageId => this.image.update(value.as_id()),
                    _ => false,
                },
                ObjectKind::Static(this) => match key {
                    Key::Locked => this.locked.update(value.as_bool()),
                    Key::ImageId => this.image.update(value.as_id()),
                    _ => false,
                },
                ObjectKind::Group(this) => match key {
                    Key::Locked => this.locked.update(value.as_bool()),
                    Key::Expanded => this.expanded.update(value.as_bool()),
                    _ => false,
                },
                ObjectKind::Room(this) => match key {
                    Key::RoomBackground => this.background.update(value.as_id()),
                    Key::ShowGrid => this.show_grid.update(value.as_bool()),
                    _ => false,
                },
            },
        }
    }

    /// Rooms are global: they are not part of any group.
    pub fn is_global(&self) -> (r: bool)
        ensures
            r == (self.kind@ is Room),
    {
        matches!(self.kind, ObjectKind::Room(_))
    }

    /// Whether this is a group shown expanded.
    pub fn is_expanded(&self) -> (r: bool)
        ensures
            r == (self.kind@ matches KindView::Group { expanded, .. } && expanded),
    {
        match &self.kind {
            ObjectKind::Group(o) => o.is_expanded(),
            _ => false,
        }
    }

    pub fn is_group(&self) -> (r: bool)
        ensures
            r == (self.kind@ is Group),
    {
        matches!(self.kind, ObjectKind::Group(_))
    }

    /// Only tokens can be interacted with.
    pub fn is_interactive(&self) -> (r: bool)
        ensures
            r == (self.kind@ is Token),
    {
        matches!(self.kind, ObjectKind::Token(_))
    }

    pub fn is_token(&self) -> (r: bool)
        ensures
            r == (self.kind@ is Token),
    {
        matches!(self.kind, ObjectKind::Token(_))
    }

    pub fn is_static(&self) -> (r: bool)
        ensures
            r == (self.kind@ is Static),
    {
        matches!(self.kind, ObjectKind::Static(_))
    }

    /// The name of the icon shown for this object.
    pub fn icon(&self) -> (r: &'static str)
        ensures
            r@ == match self.kind@ {
                KindView::Token { .. } => "user"@,
                KindView::Static { .. } => "squares-2x2"@,
                KindView::Group { expanded, .. } => if expanded {
                    "folder-open"@
                } else {
                    "folder"@
                },
                KindView::Room { .. } => "home"@,
            },
    {
        match &self.kind {
            ObjectKind::Token(..) => "user",
            ObjectKind::Static(..) => "squares-2x2",
            ObjectKind::Group(g) => {
                if *g.expanded.get() {
                    "folder-open"
                } else {
                    "folder"
                }
            },
            ObjectKind::Room(..) => "home",
        }
    }

    /// How visible this object is on its own.
    pub fn visibility(&self) -> (r: Visibility)
        ensures
            r == spec_visibility(self@),
    {
        if *self.local_hidden.get() {
            return Visibility::Nowhere;
        }
        if *self.hidden.get() {
            return Visibility::Local;
        }
        Visibility::Remote
    }

    pub fn is_hidden(&self) -> (r: bool)
        ensures
            r == self@.hidden,
    {
        *self.hidden.get()
    }

    pub fn is_local_hidden(&self) -> (r: bool)
        ensures
            r == self@.local_hidden,
    {
        *self.local_hidden.get()
    }

    /// Whether this object is locked on its own.
    pub fn is_locked(&self) -> (r: bool)
        ensures
            r == spec_is_locked(self@),
    {
        match &self.kind {
            ObjectKind::Token(this) => *this.locked.get(),
            ObjectKind::Static(this) => *this.locked.get(),
            ObjectKind::Group(this) => *this.locked.get(),
            ObjectKind::Room(_) => false,
        }
    }
}

} // verus!

verus! {

/// Whether following the group links from `cur` reaches the root group or an
/// unknown object within `n` steps.
pub open spec fn chain_ends(m: Map<RemoteId, ObjectView>, cur: RemoteId, n: nat) -> bool
    decreases n,
{
    if cur == zero_id() || !m.contains_key(cur) {
        true
    } else if n == 0 {
        false
    } else {
        chain_ends(m, m[cur].group, (n - 1) as nat)
    }
}

/// Whether the group links from `cur` end somewhere: they form no cycle.
pub open spec fn reaches_end(m: Map<RemoteId, ObjectView>, cur: RemoteId) -> bool {
    exists|n: nat| chain_ends(m, cur, n)
}

/// The least visibility along the first `n` links from `cur`.
pub open spec fn chain_visibility(m: Map<RemoteId, ObjectView>, cur: RemoteId, n: nat) -> Visibility
    decreases n,
{
    if cur == zero_id() || !m.contains_key(cur) || n == 0 {
        Visibility::Remote
    } else {
        spec_visibility(m[cur]).spec_max(chain_visibility(m, m[cur].group, (n - 1) as nat))
    }
}

/// Whether an object along the first `n` links from `cur` is locked.
pub open spec fn chain_locked(m: Map<RemoteId, ObjectView>, cur: RemoteId, n: nat) -> bool
    decreases n,
{
    if cur == zero_id() || !m.contains_key(cur) || n == 0 {
        false
    } else {
        spec_is_locked(m[cur]) || chain_locked(m, m[cur].group, (n - 1) as nat)
    }
}

/// Once a chain has ended, more steps change nothing.
pub proof fn lemma_chain_fuel(m: Map<RemoteId, ObjectView>, cur: RemoteId, n1: nat, n2: nat)
    requires
        chain_ends(m, cur, n1),
        n1 <= n2,
    ensures
        chain_ends(m, cur, n2),
        chain_visibility(m, cur, n1) == chain_visibility(m, cur, n2),
        chain_locked(m, cur, n1) == chain_locked(m, cur, n2),
    decreases n1,
{
    if cur == zero_id() || !m.contains_key(cur) {
    } else {
        lemma_chain_fuel(m, m[cur].group, (n1 - 1) as nat, (n2 - 1) as nat);
    }
}

/// Any two step bounds at which a chain has ended give the same answers.
pub proof fn lemma_chain_same(m: Map<RemoteId, ObjectView>, cur: RemoteId, n1: nat, n2: nat)
    requires
        chain_ends(m, cur, n1),
        chain_ends(m, cur, n2),
    ensures
        chain_visibility(m, cur, n1) == chain_visibility(m, cur, n2),
        chain_locked(m, cur, n1) == chain_locked(m, cur, n2),
{
    if n1 <= n2 {
        lemma_chain_fuel(m, cur, n1, n2);
    } else {
        lemma_chain_fuel(m, cur, n2, n1);
    }
}

/// The objects of `m` after the objects `s` were stored in turn, each under
/// its identifier.
pub open spec fn objects_inserted(m: Map<RemoteId, ObjectView>, s: Seq<Object>) -> Map<RemoteId, ObjectView>
    decreases s.len(),
{
    if s.len() == 0 {
        m
    } else {
        objects_inserted(m, s.drop_last()).insert(s.last().id, s.last()@)
    }
}

/// The objects of a session, by identifier.
pub struct ObjectsRef {
    values: IdMap<Object>,
}

impl View for ObjectsRef {
    type V = Map<RemoteId, ObjectView>;

    closed spec fn view(&self) -> Map<RemoteId, ObjectView> {
        self.values@.map_values(|o: Object| o@)
    }
}

impl ObjectsRef {
    /// Every object is stored under its own identifier.
    pub closed spec fn wf(&self) -> bool {
        &&& self.values.wf()
        &&& forall|k: RemoteId| #[trigger] self.values@.contains_key(k) ==> self.values@[k].id == k
    }

    pub fn new() -> (r: ObjectsRef)
        ensures
            r.wf(),
            r@ == Map::<RemoteId, ObjectView>::empty(),
    {
        let r = ObjectsRef { values: IdMap::new() };
        assert(r@ =~= Map::<RemoteId, ObjectView>::empty());
        r
    }

    /// The objects `objects`, each under its identifier; of two with the
    /// same identifier the later one is kept.
    pub fn from_objects(objects: Vec<Object>) -> (r: ObjectsRef)
        ensures
            r.wf(),
            r@ == objects_inserted(Map::<RemoteId, ObjectView>::empty(), objects@),
    {
        let mut r = ObjectsRef::new();
        let ghost all = objects@;
        let mut objects = objects;
        let ghost mut k: int = 0;
        proof {
            assert(all.skip(0) =~= all);
            assert(all.take(0) =~= Seq::<Object>::empty());
        }
        while objects.len() > 0
            invariant
                0 <= k <= all.len(),
                objects@ == all.skip(k),
                r.wf(),
                r@ == objects_inserted(Map::<RemoteId, ObjectView>::empty(), all.take(k)),
            decreases objects@.len(),
        {
            let o = objects.remove(0);
            proof {
                assert(o == all[k]);
                assert(all.take(k + 1).drop_last() =~= all.take(k));
                assert(all.take(k + 1).last() == all[k]);
            }
            r.insert(o);
            proof {
                assert(objects@ =~= all.skip(k + 1));
                k = k + 1;
            }
        }
        proof {
            assert(all.take(k) =~= all);
        }
        r
    }

    /// Every object is stored under its own identifier.
    pub proof fn lemma_ids(&self)
        requires
            self.wf(),
        ensures
            forall|k: RemoteId| #[trigger] self@.contains_key(k) ==> self@[k].id == k,
    {
    }

    pub fn get(&self, id: RemoteId) -> (r: Option<&Object>)
        requires
            self.wf(),
        ensures
            match r {
                Some(o) => self@.contains_key(id) && o@ == self@[id],
                None => !self@.contains_key(id),
            },
    {
        self.values.get(&id)
    }

    /// The identifiers of all objects, each once.
    pub fn ids(&self) -> (r: Vec<RemoteId>)
        requires
            self.wf(),
        ensures
            forall|i: int, j: int| 0 <= i < j < r@.len() ==> r@[i] != r@[j],
            forall|k: RemoteId| #[trigger] r@.contains(k) <==> self@.contains_key(k),
    {
        self.values.keys()
    }

    /// Whether `id` is an object that can be interacted with.
    pub fn is_interactive(&self, id: RemoteId) -> (r: bool)
        requires
            self.wf(),
        ensures
            r == (self@.contains_key(id) && self@[id].kind is Token),
    {
        match self.values.get(&id) {
            Some(object) => object.is_interactive(),
            None => false,
        }
    }

    pub fn remove(&mut self, id: RemoteId) -> (r: Option<Object>)
        requires
            old(self).wf(),
        ensures
            final(self).wf(),
            final(self)@ == old(self)@.remove(id),
            match r {
                Some(o) => old(self)@.contains_key(id) && o@ == old(self)@[id],
                None => !old(self)@.contains_key(id),
            },
    {
        let r = self.values.remove(&id);
        proof {
            assert(self@ =~= old(self)@.remove(id));
        }
        r
    }

    /// Stores `object` under its identifier, returning the object it replaces.
    pub fn insert(&mut self, object: Object) -> (r: Option<Object>)
        requires
            old(self).wf(),
        ensures
            final(self).wf(),
            final(self)@ == old(self)@.insert(object.id, object@),
            match r {
                Some(o) => old(self)@.contains_key(object.id) && o@ == old(self)@[object.id],
                None => !old(self)@.contains_key(object.id),
            },
    {
        let ghost v = object@;
        let id = object.id;
        let r = self.values.insert(id, object);
        proof {
            assert(self@ =~= old(self)@.insert(id, v));
        }
        r
    }

    /// Sets property `key` of object `id` to `value`; returns whether the
    /// object exists and changed.
    pub fn update(&mut self, id: RemoteId, key: Key, value: &Value) -> (changed: bool)
        requires
            old(self).wf(),
        ensures
            final(self).wf(),
            old(self)@.contains_key(id) ==> final(self)@ == old(self)@.insert(
                id,
                spec_update(old(self)@[id], key, value@),
            ),
            !old(self)@.contains_key(id) ==> final(self)@ == old(self)@,
            changed == (final(self)@ != old(self)@),
    {
        match self.values.remove(&id) {
            Some(mut object) => {
                let changed = object.update(key, value);
                self.values.insert(id, object);
                proof {
                    assert(self@ =~= old(self)@.insert(id, spec_update(old(self)@[id], key, value@)));
                    if !changed {
                        assert(self@ =~= old(self)@);
                    } else {
                        assert(self@[id] != old(self)@[id]);
                    }
                }
                changed
            },
            None => {
                proof {
                    assert(self@ =~= old(self)@);
                }
                false
            },
        }
    }

    /// Keeps only the objects for which `keep` accepts the identifier and
    /// whether the object is global.
    pub fn retain<F: Fn(RemoteId, bool) -> bool>(&mut self, keep: &F)
        requires
            old(self).wf(),
            forall|k: RemoteId, g: bool| keep.requires((k, g)),
        ensures
            final(self).wf(),
            forall|k: RemoteId| #[trigger]
                final(self)@.contains_key(k) ==> old(self)@.contains_key(k) && final(self)@[k]
                    == old(self)@[k] && keep.ensures((k, old(self)@[k].kind is Room), true),
            forall|k: RemoteId| #[trigger]
                old(self)@.contains_key(k) && !final(self)@.contains_key(k) ==> keep.ensures(
                    (k, old(self)@[k].kind is Room),
                    false,
                ),
    {
        let keys = self.values.keys();
        proof {
            assert forall|a: int| 0 <= a < keys@.len() implies self@.contains_key(
                #[trigger] keys@[a],
            ) by {
                assert(keys@.contains(keys@[a]));
            }
        }
        let mut i: usize = 0;
        while i < keys.len()
            invariant
                0 <= i <= keys@.len(),
                self.wf(),
                forall|k: RemoteId, g: bool| keep.requires((k, g)),
                forall|a: int, b: int| 0 <= a < b < keys@.len() ==> keys@[a] != keys@[b],
                forall|k: RemoteId| #[trigger] keys@.contains(k) <==> old(self)@.contains_key(k),
                forall|k: RemoteId| #[trigger]
                    self@.contains_key(k) ==> old(self)@.contains_key(k) && self@[k] == old(
                        self,
                    )@[k],
                forall|a: int| i <= a < keys@.len() ==> self@.contains_key(#[trigger] keys@[a]),
                forall|a: int|
                    0 <= a < i ==> (self@.contains_key(#[trigger] keys@[a]) && keep.ensures(
                        (keys@[a], old(self)@[keys@[a]].kind is Room),
                        true,
                    )) || (!self@.contains_key(keys@[a]) && keep.ensures(
                        (keys@[a], old(self)@[keys@[a]].kind is Room),
                        false,
                    )),
            decreases keys@.len() - i,
        {
            let k = keys[i];
            let global = match self.values.get(&k) {
                Some(o) => o.is_global(),
                None => false,
            };
            if !keep(k, global) {
                let ghost prev = self@;
                self.values.remove(&k);
                proof {
                    assert(self@ =~= prev.remove(k));
                    assert forall|a: int| i < a < keys@.len() implies self@.contains_key(
                        #[trigger] keys@[a],
                    ) by {
                        assert(keys@[a] != keys@[i as int]);
                    }
                    assert forall|a: int| 0 <= a < i implies (self@.contains_key(
                        #[trigger] keys@[a],
                    ) && keep.ensures((keys@[a], old(self)@[keys@[a]].kind is Room), true)) || (
                    !self@.contains_key(keys@[a]) && keep.ensures(
                        (keys@[a], old(self)@[keys@[a]].kind is Room),
                        false,
                    )) by {
                        assert(keys@[a] != keys@[i as int]);
                    }
                }
            }
            i = i + 1;
        }
        proof {
            assert forall|k: RemoteId| #[trigger] self@.contains_key(k) implies keep.ensures(
                (k, old(self)@[k].kind is Room),
                true,
            ) by {
                assert(keys@.contains(k));
                let a = choose|a: int| 0 <= a < keys@.len() && keys@[a] == k;
            }
            assert forall|k: RemoteId| #[trigger]
                old(self)@.contains_key(k) && !self@.contains_key(k) implies keep.ensures(
                (k, old(self)@[k].kind is Room),
                false,
            ) by {
                assert(keys@.contains(k));
                let a = choose|a: int| 0 <= a < keys@.len() && keys@[a] == k;
            }
        }
    }

    /// The least visibility of `group` and its ancestors: an object is
    /// hidden where any group it is in is hidden.
    pub fn visibility(&self, group: RemoteId) -> (r: Visibility)
        requires
            self.wf(),
            reaches_end(self@, group),
        ensures
            forall|n: nat| chain_ends(self@, group, n) ==> r == chain_visibility(self@, group, n),
    {
        let ghost m = self@;
        let ghost n0 = choose|n: nat| chain_ends(m, group, n);
        let mut hidden = Visibility::Remote;
        let mut current = group;
        let ghost mut k: nat = n0;
        while !current.is_root()
            invariant
                self.wf(),
                m == self@,
                chain_ends(m, current, k),
                chain_ends(m, group, n0),
                hidden.spec_max(chain_visibility(m, current, k)) == chain_visibility(m, group, n0),
            ensures
                current == zero_id() || !m.contains_key(current),
                chain_ends(m, group, n0),
                hidden.spec_max(chain_visibility(m, current, k)) == chain_visibility(m, group, n0),
            decreases k,
        {
            match self.values.get(&current) {
                None => {
                    break ;
                },
                Some(object) => {
                    proof {
                        assert(m.contains_key(current));
                    }
                    hidden = hidden.max(object.visibility());
                    current = *object.group.get();
                    proof {
                        k = (k - 1) as nat;
                    }
                },
            }
        }
        proof {
            assert forall|n: nat| chain_ends(m, group, n) implies hidden == chain_visibility(
                m,
                group,
                n,
            ) by {
                lemma_chain_same(m, group, n, n0);
            }
        }
        hidden
    }

    /// Whether `id` or any group it is in is locked.
    pub fn is_locked(&self, id: RemoteId) -> (r: bool)
        requires
            self.wf(),
            reaches_end(self@, id),
        ensures
            forall|n: nat| chain_ends(self@, id, n) ==> r == chain_locked(self@, id, n),
    {
        let ghost m = self@;
        let ghost n0 = choose|n: nat| chain_ends(m, id, n);
        let mut current = id;
        let ghost mut k: nat = n0;
        while !current.is_root()
            invariant
                self.wf(),
                m == self@,
                chain_ends(m, current, k),
                chain_ends(m, id, n0),
                chain_locked(m, current, k) == chain_locked(m, id, n0),
            ensures
                current == zero_id() || !m.contains_key(current),
                chain_ends(m, id, n0),
                chain_locked(m, current, k) == chain_locked(m, id, n0),
            decreases k,
        {
            match self.values.get(&current) {
                None => {
                    break ;
                },
                Some(object) => {
                    if object.is_locked() {
                        proof {
                            assert forall|n: nat| chain_ends(m, id, n) implies chain_locked(
                                m,
                                id,
                                n,
                            ) by {
                                lemma_chain_same(m, id, n, n0);
                            }
                        }
                        return true;
                    }
                    current = *object.group.get();
                    proof {
                        k = (k - 1) as nat;
                    }
                },
            }
        }
        proof {
            assert forall|n: nat| chain_ends(m, id, n) implies !chain_locked(m, id, n) by {
                lemma_chain_same(m, id, n, n0);
            }
        }
        false
    }
}

/// A lightweight view of an object for listing it: its type, name and
/// identifier.
#[derive(Debug)]
pub struct ObjectRef {
    pub ty: Type,
    pub name: State<String>,
    pub id: RemoteId,
}

impl ObjectRef {
    /// Takes over the name of `object`; returns whether it changed.
    pub fn update(&mut self, object: &Object) -> (changed: bool)
        ensures
            final(self).name.value()@ == object@.name,
            changed == (old(self).name.value()@ != object@.name),
            final(self).ty == old(self).ty,
            final(self).id == old(self).id,
    {
        self.name.update_str(object.name.get().as_str())
    }
}

impl Object {
    /// A view of this object for listing it.
    pub fn as_ref(&self) -> (r: ObjectRef)
        ensures
            r.ty == match self.kind@ {
                KindView::Token { .. } => Type::Token,
                KindView::Static { .. } => Type::Static,
                KindView::Group { .. } => Type::Group,
                KindView::Room { .. } => Type::Room,
            },
            r.name.value()@ == self@.name,
            r.id == self.id,
    {
        ObjectRef { ty: self.ty(), name: State::new(self.name.get().clone()), id: self.id }
    }
}

} // verus!
