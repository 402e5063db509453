//! The profile: keys, their tagged layers, macros and the sequences of timed
//! actions that a macro plays.
use vstd::prelude::*;

use crate::TagList;

verus! {

/// A device profile: its keys, in order.
pub struct KeyboardProfile {
    pub keys: Vec<DeviceKey>,
}

/// A key of the device, with its tagged layers and the layer used when none
/// of them matches.
pub struct DeviceKey {
    pub key_id: KeyId,
    pub layers: Vec<TaggedDeviceKeyLayer>,
    pub default_layer: DeviceKeyLayer,
}

/// Whether `i` is the first of `layers` that matches `tags`.
pub open spec fn is_first_match(layers: Seq<TaggedDeviceKeyLayer>, tags: &TagList, i: int) -> bool {
    &&& 0 <= i < layers.len()
    &&& layers[i].matches(tags)
    &&& forall|j: int| 0 <= j < i ==> !(#[trigger] layers[j]).matches(tags)
}

impl DeviceKey {
    /// The layer that is active under `tags`: the body of the first tagged
    /// layer that matches, or the default layer when none does.
    pub open spec fn active_layer(&self, tags: &TagList) -> DeviceKeyLayer {
        if exists|i: int| is_first_match(self.layers@, tags, i) {
            self.layers@[choose|i: int| is_first_match(self.layers@, tags, i)].layer
        } else {
            self.default_layer
        }
    }

    /// Whether `layer` is one of the key's own layers: its default one or the
    /// body of one of its tagged layers.
    pub open spec fn owns_layer(&self, layer: DeviceKeyLayer) -> bool {
        layer == self.default_layer || exists|i: int|
            0 <= i < self.layers@.len() && #[trigger] self.layers@[i].layer == layer
    }

    /// Whether no two of the key's own layers share an id.
    pub open spec fn unique_layer_ids(&self) -> bool {
        &&& forall|i: int|
            0 <= i < self.layers@.len() ==> (#[trigger] self.layers@[i]).layer.id != self.default_layer.id
        &&& forall|i: int, j: int|
            0 <= i < j < self.layers@.len() ==> (#[trigger] self.layers@[i]).layer.id
                != (#[trigger] self.layers@[j]).layer.id
    }

    /// The active layer is one of the key's own layers.
    pub proof fn lemma_active_layer_owned(&self, tags: &TagList)
        ensures
            self.owns_layer(self.active_layer(tags)),
    {
        if exists|i: int| is_first_match(self.layers@, tags, i) {
            let i = choose|i: int| is_first_match(self.layers@, tags, i);
            assert(self.layers@[i].layer == self.active_layer(tags));
        }
    }

    /// Where layer ids are unique, an own layer with the active layer's id is
    /// the active layer.
    pub proof fn lemma_owned_layer_by_id(&self, tags: &TagList, layer: DeviceKeyLayer)
        requires
            self.unique_layer_ids(),
            self.owns_layer(layer),
            layer.id == self.active_layer(tags).id,
        ensures
            layer == self.active_layer(tags),
    {
        self.lemma_active_layer_owned(tags);
        let a = self.active_layer(tags);
        if layer != self.default_layer {
            let i = choose|i: int| 0 <= i < self.layers@.len() && #[trigger] self.layers@[i].layer == layer;
            if a != self.default_layer {
                let j = choose|j: int| 0 <= j < self.layers@.len() && #[trigger] self.layers@[j].layer == a;
                if i < j {
                    assert(self.layers@[i].layer.id != self.layers@[j].layer.id);
                } else if j < i {
                    assert(self.layers@[j].layer.id != self.layers@[i].layer.id);
                }
            } else {
                assert(self.layers@[i].layer.id != self.default_layer.id);
            }
        } else if a != self.default_layer {
            let j = choose|j: int| 0 <= j < self.layers@.len() && #[trigger] self.layers@[j].layer == a;
            assert(self.layers@[j].layer.id != self.default_layer.id);
        }
    }

    pub fn get_active_layer(&self, tags: &TagList) -> (r: &DeviceKeyLayer)
        ensures
            *r == self.active_layer(tags),
    {
        let mut i: usize = 0;
        while i < self.layers.len()
            invariant
                i <= self.layers.len(),
                forall|j: int| 0 <= j < i ==> !(#[trigger] self.layers@[j]).matches(tags),
            decreases self.layers.len() - i,
        {
            if self.layers[i].is_match(tags) {
                proof {
                    let s = self.layers@;
                    assert(is_first_match(s, tags, i as int));
                    let k = choose|k: int| is_first_match(s, tags, k);
                    if k < i {
                        assert(!s[k].matches(tags));
                    } else if k > i {
                        assert(!s[i as int].matches(tags));
                    }
                }
                return &self.layers[i].layer;
            }
            i += 1;
        }
        &self.default_layer
    }
}

/// A layer of a key, selected when its tags match.
pub struct TaggedDeviceKeyLayer {
    pub layer: DeviceKeyLayer,
    pub tags: Vec<LayerTag>,
    pub match_type: TagMatchType,
}

impl TaggedDeviceKeyLayer {
    /// Whether the layer's predicate holds: all of its tags are set (`All`), or
    /// one of them is (`Any`).
    pub open spec fn matches(&self, tags: &TagList) -> bool {
        match self.match_type {
            TagMatchType::All => tags.has_all(self.tags@),
            TagMatchType::Any => tags.has_any(self.tags@),
        }
    }

    fn is_match(&self, tags: &TagList) -> (r: bool)
        ensures
            r == self.matches(tags),
    {
        match self.match_type {
            TagMatchType::All => tags.contains_all(&self.tags),
            TagMatchType::Any => tags.contains_any(&self.tags),
        }
    }
}

/// The body of a layer: its id and its macros, in order.
pub struct DeviceKeyLayer {
    pub id: LayerId,
    pub macros: Vec<Macro>,
}

/// A three-phase macro: `start_sequence` plays once, `loop_sequence` repeats
/// while the macro runs, `end_sequence` plays once as it winds down.
pub struct Macro {
    pub id: MacroId,
    pub name: String,
    pub play_channel: Option<Channel>,
    pub cut_channels: Vec<Channel>,
    pub start_sequence: Sequence,
    pub loop_sequence: Sequence,
    pub end_sequence: Sequence,
}

/// An ordered list of timed actions.
pub struct Sequence {
    pub actions: Vec<Action>,
}

/// An event, played once `predelay_ms` milliseconds have passed since the
/// previous action of its sequence.
pub struct Action {
    pub predelay_ms: u32,
    pub action_event: ActionEvent,
}

pub enum ActionEvent {
    Nothing,
    Keyboard(KeyboardEvent),
    Mouse(MouseEvent),
    Layer(LayerEvent),
}

pub enum TagMatchType {
    All,
    Any,
}

#[derive(Debug, Clone, Copy, PartialEq, Eq, Structural)]
pub struct LayerId(i128);

impl View for LayerId {
    type V = i128;

    closed spec fn view(&self) -> i128 {
        self.0
    }
}

impl LayerId {
    /// Ids with the same value are the same id.
    pub proof fn lemma_view_eq(a: Self, b: Self)
        requires
            a@ == b@,
        ensures
            a == b,
    {
    }

    pub fn new(id: i128) -> (r: Self)
        ensures
            r@ == id,
    {
        LayerId(id)
    }
}

#[derive(Debug, Clone, Copy, PartialEq, Eq, Structural)]
pub struct MacroId(i128);

impl View for MacroId {
    type V = i128;

    closed spec fn view(&self) -> i128 {
        self.0
    }
}

impl MacroId {
    /// Ids with the same value are the same id.
    pub proof fn lemma_view_eq(a: Self, b: Self)
        requires
            a@ == b@,
        ensures
            a == b,
    {
    }

    pub fn new(id: i128) -> (r: Self)
        ensures
            r@ == id,
    {
        MacroId(id)
    }
}

#[derive(Debug, Clone, Copy, PartialEq, Eq, Structural)]
pub struct KeyId(i128);

impl View for KeyId {
    type V = i128;

    closed spec fn view(&self) -> i128 {
        self.0
    }
}

impl KeyId {
    /// Ids with the same value are the same id.
    pub proof fn lemma_view_eq(a: Self, b: Self)
        requires
            a@ == b@,
        ensures
            a == b,
    {
    }

    pub fn new(id: i128) -> (r: Self)
        ensures
            r@ == id,
    {
        KeyId(id)
    }
}

#[derive(Debug, Clone, Copy, PartialEq, Eq, Structural)]
pub struct Channel(i128);

impl View for Channel {
    type V = i128;

    closed spec fn view(&self) -> i128 {
        self.0
    }
}

impl Channel {
    /// Ids with the same value are the same id.
    pub proof fn lemma_view_eq(a: Self, b: Self)
        requires
            a@ == b@,
        ensures
            a == b,
    {
    }

    pub fn new(id: i128) -> (r: Self)
        ensures
            r@ == id,
    {
        Channel(id)
    }
}

/// A context tag that layers are selected by.
#[derive(Debug)]
pub struct LayerTag(String);

impl View for LayerTag {
    type V = Seq<char>;

    closed spec fn view(&self) -> Seq<char> {
        self.0@
    }
}

impl LayerTag {
    pub fn new(tag: String) -> (r: Self)
        ensures
            r@ == tag@,
    {
        LayerTag(tag)
    }
}

impl PartialEq for LayerTag {
    fn eq(&self, o: &LayerTag) -> (r: bool) {
        self.0 == o.0
    }
}

impl vstd::std_specs::cmp::PartialEqSpecImpl for LayerTag {
    open spec fn obeys_eq_spec() -> bool {
        true
    }

    open spec fn eq_spec(&self, o: &LayerTag) -> bool {
        self@ == o@
    }
}

pub enum KeyboardEvent {
    KeyDown(KeyboardKey),
    KeyUp(KeyboardKey),
}

pub enum KeyboardKey {
    A,
    B,
    C,
}

pub enum MouseEvent {
    ButtonDown(MouseButton),
    ButtonUp(MouseButton),
    ScrollUp(i32),
    ScrollDown(i32),
    ScrollLeft(i32),
    ScrollRight(i32),
    Move(i32, i32),
}

pub enum MouseButton {
    Left,
    Right,
    Middle,
    Back,
    Forward,
}

pub enum LayerEvent {
    Clear(LayerTag),
    Enable(LayerTag),
}

} // verus!
