//! The blueprint data model: entities, their circuit settings and wires.
//!
//! Positions are kept in half tiles (`x2` is twice the x coordinate), so that
//! every position the generator produces is an exact integer.
pub use crate::models::{
    BlueprintArgs, FlippedAxes, ImageMetadata, ImageRotation, Mode, OutputFormat, ResamplingFilter,
    SignalCompression, SignalSorting,
};
use vstd::prelude::*;

verus! {

/// A book of blueprints.
pub struct BlueprintBook {
    pub icons: Option<Vec<Icon>>,
    pub active_index: u32,
    pub blueprint_book: BlueprintBookInner,
    pub item: String,
    pub label: Option<String>,
    pub version: Option<u64>,
}

/// The blueprints of a book.
pub struct BlueprintBookInner {
    pub blueprints: Vec<Blueprint>,
}

/// A whole blueprint.
pub struct Blueprint {
    pub blueprint: BlueprintInner,
}

/// The contents of a blueprint.
pub struct BlueprintInner {
    pub icons: Option<Vec<Icon>>,
    pub entities: Vec<Entity>,
    pub wires: Option<Vec<Wire>>,
    pub item: String,
    pub label: Option<String>,
    pub version: u64,
}

/// An icon of a blueprint.
pub struct Icon {
    pub signal: Signal,
    pub index: u32,
}

/// Quality of an item or signal.
#[derive(Clone, Copy, Debug, PartialEq, Eq, Structural)]
pub enum Quality {
    Unknown,
    Normal,
    Uncommon,
    Rare,
    Epic,
    Legendary,
}

/// The text that `Quality` is displayed as.
pub open spec fn spec_quality_display(q: Quality) -> Seq<char> {
    match q {
        Quality::Normal => seq!['n', 'o', 'r', 'm', 'a', 'l'],
        Quality::Uncommon => seq!['u', 'n', 'c', 'o', 'm', 'm', 'o', 'n'],
        Quality::Rare => seq!['r', 'a', 'r', 'e'],
        Quality::Epic => seq!['e', 'p', 'i', 'c'],
        Quality::Legendary => seq!['l', 'e', 'g', 'e', 'n', 'd', 'a', 'r', 'y'],
        Quality::Unknown => seq!['u', 'n', 'k', 'n', 'o', 'w', 'n'],
    }
}

impl Quality {
    /// Whether a quality field is left out of the JSON: absent or normal.
    pub fn is_none_or_normal(value: &Option<Quality>) -> (r: bool)
        ensures
            r == (value matches None || value == &Some(Quality::Normal)),
    {
        match value {
            None => true,
            Some(v) => *v == Quality::Normal,
        }
    }

    /// Number of bytes of the displayed text of this quality.
    pub fn display_len(&self) -> (n: usize)
        ensures
            n == spec_quality_display(*self).len(),
    {
        match self {
            Quality::Normal => 6,
            Quality::Uncommon => 8,
            Quality::Rare => 4,
            Quality::Epic => 4,
            Quality::Legendary => 9,
            Quality::Unknown => 7,
        }
    }

    /// The displayed text of this quality.
    pub fn to_display_string(&self) -> (s: String)
        ensures
            s@ == spec_quality_display(*self),
    {
        let r: &str = match self {
            Quality::Normal => "normal",
            Quality::Uncommon => "uncommon",
            Quality::Rare => "rare",
            Quality::Epic => "epic",
            Quality::Legendary => "legendary",
            Quality::Unknown => "unknown",
        };
        proof {
            reveal_strlit("normal");
            reveal_strlit("uncommon");
            reveal_strlit("rare");
            reveal_strlit("epic");
            reveal_strlit("legendary");
            reveal_strlit("unknown");
        }
        r.to_owned()
    }
}

/// A circuit signal.
pub struct Signal {
    pub type_: String,
    pub name: String,
    pub quality: Option<Quality>,
}

impl Clone for Signal {
    fn clone(&self) -> (r: Self)
        ensures
            r == *self,
    {
        Signal { type_: self.type_.clone(), name: self.name.clone(), quality: self.quality }
    }
}

/// The signal type written when a signal has none: `item`.
pub open spec fn spec_default_signal_type() -> Seq<char> {
    seq!['i', 't', 'e', 'm']
}

impl Signal {
    /// A virtual signal of the given name, of no particular quality.
    pub fn new_virtual(name: String) -> (s: Self)
        ensures
            s.type_@ == crate::blueprint::constants::SIG_TYPE_VIRTUAL@,
            s.name == name,
            s.quality is None,
    {
        Self {
            type_: crate::blueprint::constants::SIG_TYPE_VIRTUAL.to_owned(),
            name: name,
            quality: None,
        }
    }

    /// The type that a signal without one has.
    pub fn default_signal_type() -> (t: String)
        ensures
            t@ == spec_default_signal_type(),
    {
        proof {
            reveal_strlit("item");
        }
        "item".to_owned()
    }

    /// Whether a type is the default one, so that it is left out of the JSON.
    pub fn is_default_signal_type(value: &String) -> (r: bool)
        ensures
            r == (value@ == spec_default_signal_type()),
    {
        let t = Self::default_signal_type();
        *value == t
    }
}

/// A wire: source entity, source connector, target entity, target connector.
pub type Wire = [u32; 4];

/// A position, in half tiles.
#[derive(Clone, Copy, Debug, PartialEq, Eq, Structural)]
pub struct Position {
    pub x2: i64,
    pub y2: i64,
}

impl Position {
    /// The position `(x2 / 2, y2 / 2)`.
    pub fn new(x2: i64, y2: i64) -> (p: Self)
        ensures
            p.x2 == x2,
            p.y2 == y2,
    {
        Position { x2, y2 }
    }
}

/// A lamp colour, each channel in 0..=255 (written out as a fraction of 255).
#[derive(Clone, Copy, Debug, PartialEq, Eq, Structural)]
pub struct Color {
    pub r: u8,
    pub g: u8,
    pub b: u8,
    pub a: u8,
}

/// An entity of the blueprint.
pub struct Entity {
    pub entity_number: u32,
    pub name: String,
    pub position: Position,
    pub direction: Option<u32>,
    pub control_behavior: Option<ControlBehavior>,
    pub player_description: Option<String>,
    pub quality: Option<Quality>,
    pub always_on: Option<bool>,
    pub custom_tag: Option<String>,
    pub color: Option<Color>,
}

/// A copy of an optional string, equal to it.
pub fn clone_opt_string(s: &Option<String>) -> (r: Option<String>)
    ensures
        r == *s,
{
    match s {
        Some(v) => Some(v.clone()),
        None => None,
    }
}

impl Entity {
    /// Create a new entity with default None values for optional fields
    pub fn new(entity_number: u32, name: String, position: Position) -> (e: Self)
        ensures
            e.entity_number == entity_number,
            e.name == name,
            e.position == position,
            e.direction is None,
            e.control_behavior is None,
            e.player_description is None,
            e.quality is None,
            e.always_on is None,
            e.custom_tag is None,
            e.color is None,
    {
        Entity {
            entity_number,
            name,
            position,
            direction: None,
            control_behavior: None,
            player_description: None,
            quality: None,
            always_on: None,
            custom_tag: None,
            color: None,
        }
    }

    /// Whether the entity carries the given tag.
    pub fn has_tag(&self, tag: String) -> (r: bool)
        ensures
            r == (self.custom_tag matches Some(t) && t@ == tag@),
    {
        match &self.custom_tag {
            Some(t) => *t == tag,
            None => false,
        }
    }

    pub fn with_always_on(self, always_on: bool) -> (e: Self)
        ensures
            e == (Entity { always_on: Some(always_on), ..self }),
    {
        let mut s = self;
        s.always_on = Some(always_on);
        s
    }

    pub fn with_color(self, color: Color) -> (e: Self)
        ensures
            e == (Entity { color: Some(color), ..self }),
    {
        let mut s = self;
        s.color = Some(color);
        s
    }

    pub fn with_control_behavior(self, behavior: ControlBehavior) -> (e: Self)
        ensures
            e == (Entity { control_behavior: Some(behavior), ..self }),
    {
        let mut s = self;
        s.control_behavior = Some(behavior);
        s
    }

    pub fn with_description(self, desc: &str) -> (e: Self)
        ensures
            e.player_description matches Some(d) && d@ == desc@,
            e == (Entity { player_description: e.player_description, ..self }),
    {
        let mut s = self;
        s.player_description = Some(desc.to_owned());
        s
    }

    pub fn with_direction(self, direction: u32) -> (e: Self)
        ensures
            e == (Entity { direction: Some(direction), ..self }),
    {
        let mut s = self;
        s.direction = Some(direction);
        s
    }

    /// Custom tag for the entity. This does not get serialized.
    ///
    /// Utility to help identify entities for wire connections.
    pub fn with_tag(self, tag: &str) -> (e: Self)
        ensures
            e.custom_tag matches Some(t) && t@ == tag@,
            e == (Entity { custom_tag: e.custom_tag, ..self }),
    {
        let mut s = self;
        s.custom_tag = Some(tag.to_owned());
        s
    }

    /// Whether a direction field is left out of the JSON: absent or zero.
    fn is_none_or_0(value: &Option<u32>) -> (r: bool)
        ensures
            r == (value matches None || value == &Some(0u32)),
    {
        match value {
            None => true,
            Some(v) => *v == 0,
        }
    }

    /// A copy of an entity without settings.
    pub fn copy_plain(&self) -> (e: Self)
        requires
            self.control_behavior is None,
        ensures
            e == *self,
    {
        Entity {
            entity_number: self.entity_number,
            name: self.name.clone(),
            position: self.position,
            direction: self.direction,
            control_behavior: None,
            player_description: clone_opt_string(&self.player_description),
            quality: self.quality,
            always_on: self.always_on,
            custom_tag: clone_opt_string(&self.custom_tag),
            color: self.color,
        }
    }

    /// A copy of this entity whose control behaviour is `behavior`.
    pub fn clone_with_control_behavior(&self, behavior: ControlBehavior) -> (e: Self)
        ensures
            e == (Entity { control_behavior: Some(behavior), ..*self }),
    {
        Entity {
            entity_number: self.entity_number,
            name: self.name.clone(),
            position: self.position,
            direction: self.direction,
            control_behavior: Some(behavior),
            player_description: clone_opt_string(&self.player_description),
            quality: self.quality,
            always_on: self.always_on,
            custom_tag: clone_opt_string(&self.custom_tag),
            color: self.color,
        }
    }
}

/// What a combinator or lamp does with the circuit network.
pub enum ControlBehavior {
    Constant { sections: Sections },
    Decider { decider_conditions: DeciderConditions },
    Arithmetic { arithmetic_conditions: ArithmeticConditions },
    ColorLamp { use_colors: bool, color_mode: i8, rgb_signal: Signal },
    GrayLamp {
        use_colors: bool,
        color_mode: i8,
        red_signal: Signal,
        green_signal: Signal,
        blue_signal: Signal,
    },
}

impl ControlBehavior {
    pub fn from_arithmetic_conditions(arithmetic: ArithmeticConditions) -> (c: Self)
        ensures
            c == (ControlBehavior::Arithmetic { arithmetic_conditions: arithmetic }),
    {
        Self::Arithmetic { arithmetic_conditions: arithmetic }
    }

    pub fn from_decider_conditions(decider: DeciderConditions) -> (c: Self)
        ensures
            c == (ControlBehavior::Decider { decider_conditions: decider }),
    {
        Self::Decider { decider_conditions: decider }
    }
}

/// The sections of a constant combinator.
pub struct Sections {
    pub sections: Vec<Section>,
}

/// One section of a constant combinator.
pub struct Section {
    pub index: u32,
    pub filters: Vec<Filter>,
}

/// The settings of an arithmetic combinator.
pub struct ArithmeticConditions {
    pub first_signal: Option<Signal>,
    pub second_signal: Option<Signal>,
    pub second_constant: Option<i32>,
    pub operation: Option<String>,
    pub output_signal: Option<Signal>,
}

/// The settings of a decider combinator.
pub struct DeciderConditions {
    pub conditions: Option<Vec<Condition>>,
    pub outputs: Option<Vec<CombinatorOutput>>,
}

/// A signal value held by a constant combinator.
pub struct Filter {
    pub index: u32,
    pub type_: String,
    pub name: String,
    pub quality: Option<Quality>,
    pub comparator: Option<String>,
    pub count: Option<u32>,
}

/// Swapping the red and green circuit networks that a setting reads.
pub trait NetworkSwapper {
    fn swap_networks(&mut self);
}

/// Both networks flipped: red becomes !red and green becomes !green.
pub open spec fn flip_filters(n: NetworkFilters) -> NetworkFilters {
    NetworkFilters { red: !n.red, green: !n.green }
}

/// A network filter, flipped where there is one.
pub open spec fn flip_opt_filters(n: Option<NetworkFilters>) -> Option<NetworkFilters> {
    match n {
        Some(f) => Some(flip_filters(f)),
        None => None,
    }
}

/// `new` is `old` with the networks of every condition flipped, and those of
/// every output too when there are conditions.
pub open spec fn decider_swapped(old: DeciderConditions, new: DeciderConditions) -> bool {
    match old.conditions {
        None => new == old,
        Some(cs) => new.conditions matches Some(ncs)
            && ncs@ == cs@.map_values(|c: Condition| swapped_condition(c))
            && match old.outputs {
                None => new.outputs is None,
                Some(os) => new.outputs matches Some(nos)
                    && nos@ == os@.map_values(|o: CombinatorOutput| swapped_output(o)),
            },
    }
}

/// Flipping a condition's networks twice gives the condition back.
pub proof fn lemma_swapped_condition_involution(c: Condition)
    ensures
        swapped_condition(swapped_condition(c)) == c,
{
}

/// Flipping an output's networks twice gives the output back.
pub proof fn lemma_swapped_output_involution(o: CombinatorOutput)
    ensures
        swapped_output(swapped_output(o)) == o,
{
}

/// Swapping the networks of a decider twice gives back the same conditions
/// and outputs, element by element.
pub proof fn lemma_decider_swap_involution(
    d0: DeciderConditions,
    d1: DeciderConditions,
    d2: DeciderConditions,
)
    requires
        decider_swapped(d0, d1),
        decider_swapped(d1, d2),
    ensures
        d2.conditions is Some <==> d0.conditions is Some,
        d2.outputs is Some <==> d0.outputs is Some,
        d0.conditions matches Some(cs) ==> d2.conditions.unwrap()@ == cs@,
        d0.conditions is Some && d0.outputs is Some ==> d2.outputs.unwrap()@
            == d0.outputs.unwrap()@,
        d0.conditions is None ==> d2 == d0,
{
    if let Some(cs) = d0.conditions {
        let c2 = d2.conditions.unwrap()@;
        assert forall|i: int| 0 <= i < cs@.len() implies c2[i] == cs@[i] by {
            lemma_swapped_condition_involution(cs@[i]);
        }
        assert(c2 =~= cs@);
        if let Some(os) = d0.outputs {
            let o2 = d2.outputs.unwrap()@;
            assert forall|i: int| 0 <= i < os@.len() implies o2[i] == os@[i] by {
                lemma_swapped_output_involution(os@[i]);
            }
            assert(o2 =~= os@);
        }
    }
}

/// A condition whose first-signal networks are flipped.
pub open spec fn swapped_condition(c: Condition) -> Condition {
    Condition { first_signal_networks: flip_opt_filters(c.first_signal_networks), ..c }
}

/// An output whose networks are flipped.
pub open spec fn swapped_output(o: CombinatorOutput) -> CombinatorOutput {
    CombinatorOutput { networks: flip_opt_filters(o.networks), ..o }
}

fn flip_in_place(n: &mut Option<NetworkFilters>)
    ensures
        *final(n) == flip_opt_filters(*old(n)),
{
    if let Some(f) = n {
        f.red ^= true;
        f.green ^= true;
    }
}

impl NetworkSwapper for DeciderConditions {
    /// Flips the networks of every condition; the outputs are flipped too,
    /// but only when there are conditions.
    fn swap_networks(&mut self)
        ensures
            decider_swapped(*old(self), *final(self)),
    {
        if let Some(conds) = &mut self.conditions {
            let ghost cs0 = conds@;
            let n = conds.len();
            let mut i: usize = 0;
            while i < n
                invariant
                    n == conds.len() == cs0.len(),
                    0 <= i <= n,
                    forall|j: int| 0 <= j < i ==> conds@[j] == swapped_condition(cs0[j]),
                    forall|j: int| i <= j < n ==> conds@[j] == cs0[j],
                decreases n - i,
            {
                let mut c = conds.remove(i);
                flip_in_place(&mut c.first_signal_networks);
                conds.insert(i, c);
                i += 1;
            }
            assert(conds@ =~= cs0.map_values(|c: Condition| swapped_condition(c)));
            if let Some(outs) = &mut self.outputs {
                let ghost os0 = outs@;
                let n = outs.len();
                let mut i: usize = 0;
                while i < n
                    invariant
                        n == outs.len() == os0.len(),
                        0 <= i <= n,
                        forall|j: int| 0 <= j < i ==> outs@[j] == swapped_output(os0[j]),
                        forall|j: int| i <= j < n ==> outs@[j] == os0[j],
                    decreases n - i,
                {
                    let mut o = outs.remove(i);
                    o.swap_networks();
                    outs.insert(i, o);
                    i += 1;
                }
                assert(outs@ =~= os0.map_values(|o: CombinatorOutput| swapped_output(o)));
            }
        }
    }
}

impl NetworkSwapper for CombinatorOutput {
    fn swap_networks(&mut self)
        ensures
            *final(self) == swapped_output(*old(self)),
    {
        flip_in_place(&mut self.networks);
    }
}

/// One condition of a decider combinator.
pub struct Condition {
    pub first_signal: Option<Signal>,
    pub constant: Option<i32>,
    pub comparator: Option<String>,
    pub compare_type: Option<String>,
    pub first_signal_networks: Option<NetworkFilters>,
}

impl Condition {
    pub fn new(first_signal: Signal, constant: i32, comparator: &str) -> (c: Self)
        ensures
            c.first_signal == Some(first_signal),
            c.constant == Some(constant),
            c.comparator matches Some(s) && s@ == comparator@,
            c.compare_type is None,
            c.first_signal_networks is None,
    {
        Self {
            first_signal: Some(first_signal),
            constant: Some(constant),
            comparator: Some(comparator.to_owned()),
            compare_type: None,
            first_signal_networks: None,
        }
    }

    pub fn with_compare_type(self, compare_type: &str) -> (c: Self)
        ensures
            c.compare_type matches Some(s) && s@ == compare_type@,
            c == (Condition { compare_type: c.compare_type, ..self }),
    {
        let mut s = self;
        s.compare_type = Some(compare_type.to_owned());
        s
    }

    pub fn with_first_signal_networks(self, networks: NetworkFilters) -> (c: Self)
        ensures
            c == (Condition { first_signal_networks: Some(networks), ..self }),
    {
        let mut s = self;
        s.first_signal_networks = Some(networks);
        s
    }
}

/// One output of a decider combinator.
pub struct CombinatorOutput {
    pub copy_count_from_input: Option<bool>,
    pub constant: Option<i32>,
    pub signal: Option<Signal>,
    pub networks: Option<NetworkFilters>,
}

impl CombinatorOutput {
    /// Outputs `signal` with the count `constant`, or with the input count when
    /// there is no constant.
    pub fn new(signal: Signal, constant: Option<i32>) -> (o: Self)
        ensures
            o.copy_count_from_input == Some(constant is None),
            o.constant == constant,
            o.signal == Some(signal),
            o.networks is None,
    {
        Self {
            copy_count_from_input: Some(constant.is_none()),
            constant,
            signal: Some(signal),
            networks: None,
        }
    }

    pub fn with_networks(self, networks: NetworkFilters) -> (o: Self)
        ensures
            o == (CombinatorOutput { networks: Some(networks), ..self }),
    {
        let mut s = self;
        s.networks = Some(networks);
        s
    }
}

/// Which circuit networks a setting reads.
#[derive(Clone, Copy, Debug, PartialEq, Eq, Structural)]
pub struct NetworkFilters {
    pub red: bool,
    pub green: bool,
}

impl NetworkFilters {
    pub fn all() -> (n: Self)
        ensures
            n.red && n.green,
    {
        Self { red: true, green: true }
    }

    pub fn green() -> (n: Self)
        ensures
            !n.red && n.green,
    {
        Self { red: false, green: true }
    }

    pub fn none() -> (n: Self)
        ensures
            !n.red && !n.green,
    {
        Self { red: false, green: false }
    }

    pub fn red() -> (n: Self)
        ensures
            n.red && !n.green,
    {
        Self { red: true, green: false }
    }
}

} // verus!
