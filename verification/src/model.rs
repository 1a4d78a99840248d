//! Lossless in-memory model of Turing Complete circuit files, with the
//! mathematical views that the codec contracts are stated over.
use vstd::prelude::*;

verus! {

/// `(target_pin_id, inner_pin_id, name, offset, word_size)`.
pub type LinkedComponent = (i64, i64, String, i64, i64);

/// `(level_id, program_id)`.
pub type SelectedProgram = (String, String);

/// `(custom_id, word_size)`.
pub type CustomWordSize = (i64, i64);

/// `(x, y)` integer point.
pub type Point = (i16, i16);

/// A single circuit component (gate, pin, wire endpoint, ...).
#[derive(Debug, PartialEq, Eq)]
pub struct Component {
    pub kind: u16,
    pub position: Point,
    pub rotation: u8,
    pub permanent_id: i64,
    pub user_label: String,
    pub custom_string: String,
    pub settings: Vec<u64>,
    pub buffer_size: i64,
    pub ui_order: i16,
    pub word_size: i64,
    pub immutable: bool,
    pub cost_gate: i64,
    pub cost_delay: i64,
    pub little_endian: bool,
    pub init_data: u8,
    pub linked_components: Vec<LinkedComponent>,
    pub selected_programs: Vec<SelectedProgram>,
    pub custom_id: i64,
    pub custom_word_sizes: Vec<CustomWordSize>,
}

/// A wire: start point plus a chain of directional segments
/// `(direction 0..=7, length 1..=0x1FFF)`. `teleport_end` is set only by the
/// v7 format.
#[derive(Debug, PartialEq, Eq)]
pub struct Wire {
    pub color: u8,
    pub comment: String,
    pub start: Point,
    pub segments: Vec<(u8, u16)>,
    pub teleport_end: Option<Point>,
}

/// Top-level container matching the v15 record layout.
#[derive(Debug, PartialEq, Eq)]
pub struct Circuit {
    pub custom_id: i64,
    pub hub_id: u32,
    pub gate: i64,
    pub delay: i64,
    pub menu_visible: bool,
    pub clock_speed: u64,
    pub dependencies: Vec<i64>,
    pub description: String,
    pub sync_state: u8,
    pub score: u16,
    pub player_data: Vec<u8>,
    pub hub_description: String,
    pub design: Vec<u8>,
    pub components: Vec<Component>,
    pub wires: Vec<Wire>,
}

// ───────────────────────── views ─────────────────────────

pub type LinkedV = (i64, i64, Seq<char>, i64, i64);

pub type ProgramV = (Seq<char>, Seq<char>);

pub struct ComponentV {
    pub kind: u16,
    pub position: Point,
    pub rotation: u8,
    pub permanent_id: i64,
    pub user_label: Seq<char>,
    pub custom_string: Seq<char>,
    pub settings: Seq<u64>,
    pub buffer_size: i64,
    pub ui_order: i16,
    pub word_size: i64,
    pub immutable: bool,
    pub cost_gate: i64,
    pub cost_delay: i64,
    pub little_endian: bool,
    pub init_data: u8,
    pub linked_components: Seq<LinkedV>,
    pub selected_programs: Seq<ProgramV>,
    pub custom_id: i64,
    pub custom_word_sizes: Seq<(i64, i64)>,
}

pub struct WireV {
    pub color: u8,
    pub comment: Seq<char>,
    pub start: Point,
    pub segments: Seq<(u8, u16)>,
    pub teleport_end: Option<Point>,
}

pub struct CircuitV {
    pub custom_id: i64,
    pub hub_id: u32,
    pub gate: i64,
    pub delay: i64,
    pub menu_visible: bool,
    pub clock_speed: u64,
    pub dependencies: Seq<i64>,
    pub description: Seq<char>,
    pub sync_state: u8,
    pub score: u16,
    pub player_data: Seq<u8>,
    pub hub_description: Seq<char>,
    pub design: Seq<u8>,
    pub components: Seq<ComponentV>,
    pub wires: Seq<WireV>,
}

pub open spec fn linked_view(l: LinkedComponent) -> LinkedV {
    (l.0, l.1, l.2@, l.3, l.4)
}

pub open spec fn program_view(p: SelectedProgram) -> ProgramV {
    (p.0@, p.1@)
}

pub open spec fn linked_views(v: Seq<LinkedComponent>) -> Seq<LinkedV> {
    v.map_values(|l: LinkedComponent| linked_view(l))
}

pub open spec fn program_views(v: Seq<SelectedProgram>) -> Seq<ProgramV> {
    v.map_values(|p: SelectedProgram| program_view(p))
}

pub open spec fn component_views(v: Seq<Component>) -> Seq<ComponentV> {
    v.map_values(|c: Component| c@)
}

pub open spec fn wire_views(v: Seq<Wire>) -> Seq<WireV> {
    v.map_values(|w: Wire| w@)
}

impl View for Component {
    type V = ComponentV;

    open spec fn view(&self) -> ComponentV {
        ComponentV {
            kind: self.kind,
            position: self.position,
            rotation: self.rotation,
            permanent_id: self.permanent_id,
            user_label: self.user_label@,
            custom_string: self.custom_string@,
            settings: self.settings@,
            buffer_size: self.buffer_size,
            ui_order: self.ui_order,
            word_size: self.word_size,
            immutable: self.immutable,
            cost_gate: self.cost_gate,
            cost_delay: self.cost_delay,
            little_endian: self.little_endian,
            init_data: self.init_data,
            linked_components: linked_views(self.linked_components@),
            selected_programs: program_views(self.selected_programs@),
            custom_id: self.custom_id,
            custom_word_sizes: self.custom_word_sizes@,
        }
    }
}

impl View for Wire {
    type V = WireV;

    open spec fn view(&self) -> WireV {
        WireV {
            color: self.color,
            comment: self.comment@,
            start: self.start,
            segments: self.segments@,
            teleport_end: self.teleport_end,
        }
    }
}

impl View for Circuit {
    type V = CircuitV;

    open spec fn view(&self) -> CircuitV {
        CircuitV {
            custom_id: self.custom_id,
            hub_id: self.hub_id,
            gate: self.gate,
            delay: self.delay,
            menu_visible: self.menu_visible,
            clock_speed: self.clock_speed,
            dependencies: self.dependencies@,
            description: self.description@,
            sync_state: self.sync_state,
            score: self.score,
            player_data: self.player_data@,
            hub_description: self.hub_description@,
            design: self.design@,
            components: component_views(self.components@),
            wires: wire_views(self.wires@),
        }
    }
}

impl Circuit {
    /// Total cost = gate count × delay.
    pub fn energy(&self) -> (e: i64)
        requires
            i64::MIN <= self.gate * self.delay <= i64::MAX,
        ensures
            e == self.gate * self.delay,
    {
        self.gate * self.delay
    }
}

impl Default for Component {
    fn default() -> (c: Self)
        ensures
            c@.kind == 0,
            c@.position == (0i16, 0i16),
            c@.rotation == 0,
            c@.permanent_id == 0,
            c@.user_label.len() == 0,
            c@.custom_string.len() == 0,
            c@.settings.len() == 0,
            c@.buffer_size == 0,
            c@.ui_order == 0,
            c@.word_size == 1,
            !c@.immutable,
            c@.cost_gate == -1,
            c@.cost_delay == 0,
            !c@.little_endian,
            c@.init_data == 0,
            c@.linked_components.len() == 0,
            c@.selected_programs.len() == 0,
            c@.custom_id == 0,
            c@.custom_word_sizes.len() == 0,
    {
        Component {
            kind: 0,
            position: (0, 0),
            rotation: 0,
            permanent_id: 0,
            user_label: String::new(),
            custom_string: String::new(),
            settings: Vec::new(),
            buffer_size: 0,
            ui_order: 0,
            word_size: 1,
            immutable: false,
            cost_gate: -1,
            cost_delay: 0,
            little_endian: false,
            init_data: 0,
            linked_components: Vec::new(),
            selected_programs: Vec::new(),
            custom_id: 0,
            custom_word_sizes: Vec::new(),
        }
    }
}

impl Default for Wire {
    fn default() -> (w: Self)
        ensures
            w@.color == 0,
            w@.comment.len() == 0,
            w@.start == (0i16, 0i16),
            w@.segments.len() == 0,
            w@.teleport_end is None,
    {
        Wire {
            color: 0,
            comment: String::new(),
            start: (0, 0),
            segments: Vec::new(),
            teleport_end: None,
        }
    }
}

impl Default for Circuit {
    fn default() -> (c: Self)
        ensures
            c@.custom_id == 0,
            c@.hub_id == 0,
            c@.gate == 0,
            c@.delay == 0,
            c@.menu_visible,
            c@.clock_speed == 10_000_000,
            c@.dependencies.len() == 0,
            c@.description.len() == 0,
            c@.sync_state == 0,
            c@.score == 0,
            c@.player_data.len() == 0,
            c@.hub_description.len() == 0,
            c@.design.len() == 0,
            c@.components.len() == 0,
            c@.wires.len() == 0,
    {
        Circuit {
            custom_id: 0,
            hub_id: 0,
            gate: 0,
            delay: 0,
            menu_visible: true,
            clock_speed: 10_000_000,
            dependencies: Vec::new(),
            description: String::new(),
            sync_state: 0,
            score: 0,
            player_data: Vec::new(),
            hub_description: String::new(),
            design: Vec::new(),
            components: Vec::new(),
            wires: Vec::new(),
        }
    }
}

} // verus!
