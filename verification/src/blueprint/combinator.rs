//! The combinators behind each group of lamps: the helpers that decode the
//! packed pixel data (placed as a hand-made layout prescribes), and the grid
//! of data combinators that hold the frames.
use crate::blueprint::constants::{
    ARI_CB, COMP_AND, COMP_NE, DEC_CB, DIR_R, DIR_U, OP_AND, OP_MUL, OP_RSHIFT, SIG_EACH, SIG_F,
    SIG_T, WIRE_G, WIRE_OUT_G, WIRE_OUT_R, WIRE_R,
};
use crate::blueprint::models::{
    ArithmeticConditions, Blueprint, CombinatorOutput, Condition, ControlBehavior,
    DeciderConditions, Entity, NetworkFilters, Position, Signal, Wire,
};
use crate::blueprint::substation::{
    after_requests, spec_center, spec_coverage, spec_is_free, spec_rel, SubstationOccupied,
};
use crate::blueprint::timer::{arithmetic_virtual, is_arithmetic_virtual, is_some_virtual};
use crate::blueprint::util::BlueprintError;
use crate::models::{BlueprintArgs, ImageRotation, SignalCompression};
use vstd::prelude::*;
use vstd::string::StringSliceAdditionalSpecFns;

verus! {

/// What the delay combinator says of itself.
pub const DELAY_DESC: &'static str = "Utility 1-tick delay combinator.";

/// What the memory combinator says of itself.
pub const MEMORY_DESC: &'static str = "Memory cell for delta compression. This holds all the signal values, then allows us to set any signal value by applying a delta. We can reach any number in one tick using overflow logic.";

/// What the shift combinator says of itself.
pub const SHIFT_DESC: &'static str = "Shifts the input numbers until they are in the range of the current frame.";

/// What the mask combinator says of itself.
pub const MASK_DESC: &'static str = "Filters out the bits that are not relevant for the current frame, after bit-shifting. (The value of each signal encodes multiple frames)";

/// A hand-made layout of the helper combinators, for one kind of
/// compression and the grayscale depths it serves. Entities are found by
/// their description ("delay", "memory", ">>", "AND", "*"); positions are in
/// half tiles with the layout's corner at the origin, and `dim` is its size.
pub struct CombinatorPositionData {
    pub compression: Option<SignalCompression>,
    pub dim: Position,
    pub grayscale_bits: Vec<u32>,
    pub blueprint: Blueprint,
}

// ---------------------------------------------------------------------------
// Choosing a layout and looking up its entities
// ---------------------------------------------------------------------------

/// A layout usable for the given settings: it fits in the group's width and
/// serves its compression and grayscale depth.
pub open spec fn layout_matches(
    d: CombinatorPositionData,
    compression: Option<SignalCompression>,
    gray_bits: u32,
    max_cols: u32,
) -> bool {
    &&& d.dim.x2 <= 2 * max_cols
    &&& d.compression == compression
    &&& d.grayscale_bits@.contains(gray_bits)
}

/// Among the first `k` layouts, the widest usable one (the first of equally
/// wide ones); a layout must be wider than nothing to be chosen.
pub open spec fn best_layout(
    data: Seq<CombinatorPositionData>,
    compression: Option<SignalCompression>,
    gray_bits: u32,
    max_cols: u32,
    k: int,
) -> Option<int>
    decreases k,
{
    if k <= 0 {
        None
    } else {
        let prev = best_layout(data, compression, gray_bits, max_cols, k - 1);
        let best_w = match prev {
            Some(i) => data[i].dim.x2 as int,
            None => 0,
        };
        if layout_matches(data[k - 1], compression, gray_bits, max_cols) && data[k - 1].dim.x2
            > best_w {
            Some(k - 1)
        } else {
            prev
        }
    }
}

/// The layout chosen from all of `data`.
pub open spec fn chosen_layout(
    data: Seq<CombinatorPositionData>,
    compression: Option<SignalCompression>,
    gray_bits: u32,
    max_cols: u32,
) -> Option<int> {
    best_layout(data, compression, gray_bits, max_cols, data.len() as int)
}

/// Whether two compression settings are the same.
fn same_compression(a: &Option<SignalCompression>, b: &Option<SignalCompression>) -> (r: bool)
    ensures
        r == (*a == *b),
{
    match (a, b) {
        (None, None) => true,
        (Some(SignalCompression::Delta), Some(SignalCompression::Delta)) => true,
        (
            Some(SignalCompression::Temporal { window: x }),
            Some(SignalCompression::Temporal { window: y }),
        ) => *x == *y,
        _ => false,
    }
}

/// The index of the widest layout usable for the settings, if any.
pub fn select_layout(
    data: &Vec<CombinatorPositionData>,
    compression: &Option<SignalCompression>,
    gray_bits: u32,
    max_cols: u32,
) -> (r: Option<usize>)
    ensures
        r matches Some(i) ==> chosen_layout(data@, *compression, gray_bits, max_cols) == Some(
            i as int,
        ) && i < data@.len(),
        r is None ==> chosen_layout(data@, *compression, gray_bits, max_cols) is None,
{
    let mut best: Option<usize> = None;
    let mut k: usize = 0;
    while k < data.len()
        invariant
            0 <= k <= data@.len(),
            match best {
                Some(i) => best_layout(data@, *compression, gray_bits, max_cols, k as int) == Some(
                    i as int,
                ) && i < k,
                None => best_layout(data@, *compression, gray_bits, max_cols, k as int) is None,
            },
        decreases data@.len() - k,
    {
        let d = &data[k];
        let best_w: i64 = match best {
            Some(i) => data[i].dim.x2,
            None => 0,
        };
        let mut has_bits = false;
        let mut j: usize = 0;
        while j < d.grayscale_bits.len()
            invariant
                0 <= j <= d.grayscale_bits@.len(),
                has_bits == exists|q: int| 0 <= q < j && d.grayscale_bits@[q] == gray_bits,
            decreases d.grayscale_bits@.len() - j,
        {
            if d.grayscale_bits[j] == gray_bits {
                has_bits = true;
            }
            j += 1;
        }
        proof {
            if has_bits {
                let q = choose|q: int| 0 <= q < j && d.grayscale_bits@[q] == gray_bits;
                assert(d.grayscale_bits@.contains(gray_bits));
            }
        }
        if (d.dim.x2 as i128) <= 2 * (max_cols as i128) && same_compression(
            &d.compression,
            compression,
        ) && has_bits && d.dim.x2 > best_w {
            best = Some(k);
        }
        k += 1;
    }
    best
}

/// The index of the last of `ents[..k]` described as `tag`.
pub open spec fn last_described(ents: Seq<Entity>, tag: Seq<char>, k: int) -> Option<int>
    decreases k,
{
    if k <= 0 {
        None
    } else if ents[k - 1].player_description matches Some(d) && d@ == tag {
        Some(k - 1)
    } else {
        last_described(ents, tag, k - 1)
    }
}

/// The index of the last entity described as `tag`, if any.
pub fn find_described(ents: &Vec<Entity>, tag: &str) -> (r: Option<usize>)
    ensures
        r matches Some(i) ==> last_described(ents@, tag@, ents@.len() as int) == Some(i as int),
        r is None ==> last_described(ents@, tag@, ents@.len() as int) is None,
{
    let t = tag.to_owned();
    let mut k: usize = ents.len();
    while k > 0
        invariant
            0 <= k <= ents@.len(),
            t@ == tag@,
            forall|j: int|
                k <= j < ents@.len() ==> !((#[trigger] ents@[j]).player_description matches Some(d) && d@
                    == tag@),
        decreases k,
    {
        let found = match &ents[k - 1].player_description {
            Some(d) => *d == t,
            None => false,
        };
        if found {
            proof {
                lemma_last_described_skip(ents@, tag@, k as int, ents@.len() as int);
            }
            return Some(k - 1);
        }
        k -= 1;
    }
    proof {
        lemma_last_described_skip(ents@, tag@, 0, ents@.len() as int);
    }
    None
}

/// The entity found is one of the first `k`, described as `tag`.
proof fn lemma_last_described_range(ents: Seq<Entity>, tag: Seq<char>, k: int)
    requires
        k <= ents.len(),
    ensures
        last_described(ents, tag, k) matches Some(i) ==> 0 <= i < k && (ents[i].player_description matches Some(d) && d@ == tag),
    decreases k,
{
    if k > 0 {
        lemma_last_described_range(ents, tag, k - 1);
    }
}

/// Entities past `k` that are not described as `tag` do not change the
/// answer.
proof fn lemma_last_described_skip(ents: Seq<Entity>, tag: Seq<char>, k: int, m: int)
    requires
        0 <= k <= m <= ents.len(),
        forall|j: int|
            k <= j < m ==> !((#[trigger] ents[j]).player_description matches Some(d) && d@ == tag),
    ensures
        last_described(ents, tag, m) == last_described(ents, tag, k),
    decreases m - k,
{
    if m > k {
        lemma_last_described_skip(ents, tag, k, m - 1);
    }
}

// ---------------------------------------------------------------------------
// The helper combinators
// ---------------------------------------------------------------------------

/// Coordinates small enough that adding a few of them stays exact.
pub open spec fn small(v: int) -> bool {
    -0x100_0000_0000 <= v <= 0x100_0000_0000
}

/// Entities with small positions.
pub open spec fn small_positions(ents: Seq<Entity>) -> bool {
    forall|i: int|
        0 <= i < ents.len() ==> small((#[trigger] ents[i]).position.x2 as int) && small(
            ents[i].position.y2 as int,
        )
}

/// The layout entity described as `tag`.
pub open spec fn tagged(ents: Seq<Entity>, tag: Seq<char>) -> Entity {
    match last_described(ents, tag, ents.len() as int) {
        Some(i) => ents[i],
        None => ents[0],
    }
}

/// Where the entity described as `tag` goes: its place in the layout,
/// moved to `start` and up by the layout's height.
pub open spec fn tag_pos(ents: Seq<Entity>, tag: Seq<char>, start: Position, height: int) -> Position {
    let p = tagged(ents, tag).position;
    Position { x2: (p.x2 + start.x2) as i64, y2: (p.y2 + start.y2 - height) as i64 }
}

/// The direction of the entity described as `tag` (up where it has none).
pub open spec fn tag_dir(ents: Seq<Entity>, tag: Seq<char>) -> u32 {
    match tagged(ents, tag).direction {
        Some(d) => d,
        None => 0,
    }
}

/// The tags a layout needs for the settings.
pub open spec fn needed_tags(delta: bool, gray_bits: u32) -> Seq<Seq<char>> {
    (if delta {
        seq!["delay"@, "memory"@]
    } else {
        Seq::empty()
    }) + (if gray_bits > 0 {
        seq![">>"@, "AND"@]
    } else {
        Seq::empty()
    }) + (if gray_bits == 1 || gray_bits == 4 {
        seq!["*"@]
    } else {
        Seq::empty()
    })
}

/// The layout describes an entity for every tag the settings need.
pub open spec fn has_needed_tags(ents: Seq<Entity>, delta: bool, gray_bits: u32) -> bool {
    forall|t: int|
        0 <= t < needed_tags(delta, gray_bits).len() ==> last_described(
            ents,
            #[trigger] needed_tags(delta, gray_bits)[t],
            ents.len() as int,
        ) is Some
}

/// Number of helper combinators.
pub open spec fn n_helpers(delta: bool, gray_bits: u32) -> int {
    (if delta {
        2int
    } else {
        0int
    }) + (if gray_bits > 0 {
        if gray_bits == 1 || gray_bits == 4 {
            3int
        } else {
            2int
        }
    } else {
        0int
    })
}

/// A helper combinator: number, name, place, direction and tag as given, a
/// description where one is given, nothing else set but its settings.
pub open spec fn is_helper(
    e: Entity,
    n: int,
    name: Seq<char>,
    pos: Position,
    dir: u32,
    tag: Seq<char>,
    desc: Option<Seq<char>>,
) -> bool {
    &&& e.entity_number == n
    &&& e.name@ == name
    &&& e.position == pos
    &&& e.direction == Some(dir)
    &&& e.quality is None
    &&& e.always_on is None
    &&& e.color is None
    &&& e.custom_tag matches Some(t) && t@ == tag
    &&& match desc {
        None => e.player_description is None,
        Some(s) => e.player_description matches Some(d) && d@ == s,
    }
}

/// The condition `name != 0`, reading `networks`.
pub open spec fn is_nonzero(c: Condition, name: Seq<char>, networks: Option<NetworkFilters>) -> bool {
    &&& is_some_virtual(c.first_signal, name)
    &&& c.constant == Some(0i32)
    &&& c.comparator matches Some(k) && k@ == COMP_NE@
    &&& c.first_signal_networks == networks
}

/// The output that passes every input signal on, onto `networks`.
pub open spec fn is_pass_each(o: CombinatorOutput, networks: Option<NetworkFilters>) -> bool {
    &&& is_some_virtual(o.signal, SIG_EACH@)
    &&& o.constant is None
    &&& o.copy_count_from_input == Some(true)
    &&& o.networks == networks
}

/// The delay: passes every non-zero signal on, one tick later.
pub open spec fn is_delay_settings(cb: Option<ControlBehavior>) -> bool {
    cb matches Some(ControlBehavior::Decider { decider_conditions: d }) && {
        &&& d.conditions matches Some(cs) && cs@.len() == 1 && is_nonzero(cs@[0], SIG_EACH@, None)
            && cs@[0].compare_type is None
        &&& d.outputs matches Some(os) && os@.len() == 1 && is_pass_each(os@[0], None)
    }
}

/// The memory: holds the green network while `signal-T` on red is not 0.
pub open spec fn is_memory_settings(cb: Option<ControlBehavior>) -> bool {
    cb matches Some(ControlBehavior::Decider { decider_conditions: d }) && {
        &&& d.conditions matches Some(cs) && cs@.len() == 2 && {
            &&& is_nonzero(cs@[0], SIG_EACH@, Some(NetworkFilters { red: false, green: true }))
            &&& cs@[0].compare_type is None
            &&& is_nonzero(cs@[1], SIG_T@, Some(NetworkFilters { red: true, green: false }))
            &&& cs@[1].compare_type matches Some(k) && k@ == COMP_AND@
        }
        &&& d.outputs matches Some(os) && os@.len() == 1 && is_pass_each(
            os@[0],
            Some(NetworkFilters { red: false, green: true }),
        )
    }
}

/// The shift: every signal shifted right by `signal-F`.
pub open spec fn is_shift_settings(cb: Option<ControlBehavior>) -> bool {
    cb matches Some(ControlBehavior::Arithmetic { arithmetic_conditions: ac }) && {
        &&& is_some_virtual(ac.first_signal, SIG_EACH@)
        &&& is_some_virtual(ac.second_signal, SIG_F@)
        &&& ac.second_constant is None
        &&& ac.operation matches Some(o) && o@ == OP_RSHIFT@
        &&& is_some_virtual(ac.output_signal, SIG_EACH@)
    }
}

/// The mask that keeps one frame's bits.
pub open spec fn gray_mask(gray_bits: u32) -> i32 {
    if gray_bits == 1 {
        1
    } else if gray_bits == 4 {
        15
    } else {
        255
    }
}

/// The factor that spreads one frame's bits over the full brightness range.
pub open spec fn gray_scale(gray_bits: u32) -> i32 {
    if gray_bits == 1 {
        255
    } else {
        17
    }
}

/// The wires among the helpers, first helper numbered `base`.
pub open spec fn helper_wires(delta: bool, gray_bits: u32, base: int) -> Seq<Wire> {
    let s = base + if delta {
        2int
    } else {
        0int
    };
    (if delta {
        seq![
            [(base + 1) as u32, WIRE_G, (base + 1) as u32, WIRE_OUT_G],
            [base as u32, WIRE_OUT_R, (base + 1) as u32, WIRE_R],
        ]
    } else {
        Seq::empty()
    }) + (if gray_bits > 0 {
        seq![[s as u32, WIRE_OUT_R, (s + 1) as u32, WIRE_R]] + (if delta {
            seq![
                [(base + 1) as u32, WIRE_OUT_G, s as u32, WIRE_G],
                [base as u32, WIRE_OUT_R, s as u32, WIRE_R],
            ]
        } else {
            Seq::empty()
        }) + (if gray_bits == 1 || gray_bits == 4 {
            seq![[(s + 1) as u32, WIRE_OUT_R, (s + 2) as u32, WIRE_R]]
        } else {
            Seq::empty()
        })
    } else {
        Seq::empty()
    })
}

/// The helper combinators, first numbered `base`: with delta compression a
/// delay and a memory cell; with grayscale a shift, a mask and (for one and
/// four bits) a scale, each placed where the layout says.
pub open spec fn helpers_are(
    other: Seq<Entity>,
    ents: Seq<Entity>,
    delta: bool,
    gray_bits: u32,
    base: int,
    start: Position,
    height: int,
) -> bool {
    let s = base + if delta {
        2int
    } else {
        0int
    };
    let d = if delta {
        2int
    } else {
        0int
    };
    &&& other.len() == n_helpers(delta, gray_bits)
    &&& delta ==> {
        &&& is_helper(
            other[0],
            base,
            DEC_CB@,
            tag_pos(ents, "delay"@, start, height),
            tag_dir(ents, "delay"@),
            "delay comb"@,
            Some(DELAY_DESC@),
        )
        &&& is_delay_settings(other[0].control_behavior)
        &&& is_helper(
            other[1],
            base + 1,
            DEC_CB@,
            tag_pos(ents, "memory"@, start, height),
            tag_dir(ents, "memory"@),
            "memory comb"@,
            Some(MEMORY_DESC@),
        )
        &&& is_memory_settings(other[1].control_behavior)
    }
    &&& gray_bits > 0 ==> {
        &&& is_helper(
            other[d],
            s,
            ARI_CB@,
            tag_pos(ents, ">>"@, start, height),
            tag_dir(ents, ">>"@),
            ">> comb"@,
            Some(SHIFT_DESC@),
        )
        &&& is_shift_settings(other[d].control_behavior)
        &&& is_helper(
            other[d + 1],
            s + 1,
            ARI_CB@,
            tag_pos(ents, "AND"@, start, height),
            tag_dir(ents, "AND"@),
            "AND comb"@,
            Some(MASK_DESC@),
        )
        &&& other[d + 1].control_behavior matches Some(
            ControlBehavior::Arithmetic { arithmetic_conditions: ac },
        ) && is_arithmetic_virtual(ac, SIG_EACH@, OP_AND@, gray_mask(gray_bits), SIG_EACH@)
    }
    &&& (gray_bits == 1 || gray_bits == 4) ==> {
        &&& is_helper(
            other[d + 2],
            s + 2,
            ARI_CB@,
            tag_pos(ents, "*"@, start, height),
            tag_dir(ents, "*"@),
            "* comb"@,
            None,
        )
        &&& other[d + 2].control_behavior matches Some(
            ControlBehavior::Arithmetic { arithmetic_conditions: ac },
        ) && is_arithmetic_virtual(ac, SIG_EACH@, OP_MUL@, gray_scale(gray_bits), SIG_EACH@)
    }
}

/// Where the layout entity described as `tag` goes, and its direction.
fn place_of(ents: &Vec<Entity>, tag: &str, start: Position, height: i64) -> (r: (Position, u32))
    requires
        last_described(ents@, tag@, ents@.len() as int) is Some,
        small_positions(ents@),
        small(start.x2 as int),
        small(start.y2 as int),
        small(height as int),
    ensures
        r.0 == tag_pos(ents@, tag@, start, height as int),
        r.1 == tag_dir(ents@, tag@),
{
    proof {
        lemma_last_described_range(ents@, tag@, ents@.len() as int);
    }
    let i = find_described(ents, tag).unwrap();
    let p = ents[i].position;
    let dir = match ents[i].direction {
        Some(d) => d,
        None => 0,
    };
    (Position { x2: p.x2 + start.x2, y2: p.y2 + start.y2 - height }, dir)
}

/// Builds the helper combinators, the first numbered `base`, with their
/// wires; returns them with the entity that takes the timer's signal, the
/// entity whose output feeds the lamps, and the next free number.
fn make_helpers(
    ents: &Vec<Entity>,
    delta: bool,
    gray_bits: u32,
    base: u32,
    start: Position,
    height: i64,
) -> (r: (Vec<Entity>, Vec<Wire>, u32, u32, u32))
    requires
        has_needed_tags(ents@, delta, gray_bits),
        small_positions(ents@),
        small(start.x2 as int),
        small(start.y2 as int),
        small(height as int),
        1 <= base,
        base + 5 <= u32::MAX,
    ensures
        helpers_are(r.0@, ents@, delta, gray_bits, base as int, start, height as int),
        r.1@ == helper_wires(delta, gray_bits, base as int),
        r.2 == base,
        r.3 == if gray_bits > 0 {
            base + n_helpers(delta, gray_bits) - 1
        } else if delta {
            base + 1
        } else {
            base as int
        },
        r.4 == base + n_helpers(delta, gray_bits),
{
    let ghost tags = needed_tags(delta, gray_bits);
    let mut other: Vec<Entity> = Vec::new();
    let mut wires: Vec<Wire> = Vec::new();
    let mut curr = base;
    if delta {
        proof {
            assert(tags[0] == "delay"@);
            assert(tags[1] == "memory"@);
        }
        let (pos, dir) = place_of(ents, "delay", start, height);
        let mut conds: Vec<Condition> = Vec::new();
        conds.push(Condition::new(Signal::new_virtual(SIG_EACH.to_owned()), 0, COMP_NE));
        let mut outs: Vec<CombinatorOutput> = Vec::new();
        outs.push(CombinatorOutput::new(Signal::new_virtual(SIG_EACH.to_owned()), None));
        let dc = DeciderConditions { conditions: Some(conds), outputs: Some(outs) };
        let en = Entity::new(curr, DEC_CB.to_owned(), pos).with_tag("delay comb").with_direction(
            dir,
        ).with_control_behavior(ControlBehavior::from_decider_conditions(dc)).with_description(
            DELAY_DESC,
        );
        other.push(en);
        curr += 1;

        let (pos, dir) = place_of(ents, "memory", start, height);
        let mut conds: Vec<Condition> = Vec::new();
        conds.push(
            Condition::new(Signal::new_virtual(SIG_EACH.to_owned()), 0, COMP_NE).with_first_signal_networks(
                NetworkFilters::green(),
            ),
        );
        conds.push(
            Condition::new(Signal::new_virtual(SIG_T.to_owned()), 0, COMP_NE).with_compare_type(
                COMP_AND,
            ).with_first_signal_networks(NetworkFilters::red()),
        );
        let mut outs: Vec<CombinatorOutput> = Vec::new();
        outs.push(
            CombinatorOutput::new(Signal::new_virtual(SIG_EACH.to_owned()), None).with_networks(
                NetworkFilters::green(),
            ),
        );
        let dc = DeciderConditions { conditions: Some(conds), outputs: Some(outs) };
        let en = Entity::new(curr, DEC_CB.to_owned(), pos).with_direction(dir).with_control_behavior(
            ControlBehavior::from_decider_conditions(dc),
        ).with_tag("memory comb").with_description(MEMORY_DESC);
        other.push(en);
        // The memory holds its value by feeding its output back in.
        wires.push([curr, WIRE_G, curr, WIRE_OUT_G]);
        wires.push([base, WIRE_OUT_R, curr, WIRE_R]);
        curr += 1;
    }
    let comb_out: u32;
    if gray_bits > 0 {
        let d: usize = if delta {
            2
        } else {
            0
        };
        proof {
            assert(tags[d as int] == ">>"@);
            assert(tags[d + 1] == "AND"@);
        }
        let s = curr;
        let (pos, dir) = place_of(ents, ">>", start, height);
        let ac = ArithmeticConditions {
            first_signal: Some(Signal::new_virtual(SIG_EACH.to_owned())),
            second_signal: Some(Signal::new_virtual(SIG_F.to_owned())),
            second_constant: None,
            operation: Some(OP_RSHIFT.to_owned()),
            output_signal: Some(Signal::new_virtual(SIG_EACH.to_owned())),
        };
        let en = Entity::new(curr, ARI_CB.to_owned(), pos).with_tag(">> comb").with_direction(
            dir,
        ).with_control_behavior(ControlBehavior::from_arithmetic_conditions(ac)).with_description(
            SHIFT_DESC,
        );
        other.push(en);
        curr += 1;

        let (pos, dir) = place_of(ents, "AND", start, height);
        let mask: i32 = if gray_bits == 1 {
            1
        } else if gray_bits == 4 {
            15
        } else {
            255
        };
        let ac = arithmetic_virtual(SIG_EACH, OP_AND, mask, SIG_EACH);
        let en = Entity::new(curr, ARI_CB.to_owned(), pos).with_tag("AND comb").with_direction(
            dir,
        ).with_description(MASK_DESC).with_control_behavior(
            ControlBehavior::from_arithmetic_conditions(ac),
        );
        other.push(en);
        wires.push([s, WIRE_OUT_R, curr, WIRE_R]);
        if delta {
            wires.push([base + 1, WIRE_OUT_G, s, WIRE_G]);
            wires.push([base, WIRE_OUT_R, s, WIRE_R]);
        }
        curr += 1;

        if gray_bits == 1 || gray_bits == 4 {
            proof {
                assert(tags[d + 2] == "*"@);
            }
            let (pos, dir) = place_of(ents, "*", start, height);
            let factor: i32 = if gray_bits == 1 {
                255
            } else {
                17
            };
            let ac = arithmetic_virtual(SIG_EACH, OP_MUL, factor, SIG_EACH);
            let en = Entity::new(curr, ARI_CB.to_owned(), pos).with_tag("* comb").with_direction(
                dir,
            ).with_control_behavior(ControlBehavior::from_arithmetic_conditions(ac));
            other.push(en);
            wires.push([curr - 1, WIRE_OUT_R, curr, WIRE_R]);
            curr += 1;
        }
        comb_out = curr - 1;
    } else if delta {
        comb_out = base + 1;
    } else {
        comb_out = base;
    }
    proof {
        assert(wires@ =~= helper_wires(delta, gray_bits, base as int));
    }
    (other, wires, base, comb_out, curr)
}

// ---------------------------------------------------------------------------
// The grid of data combinators
// ---------------------------------------------------------------------------

/// Where the data combinators go: the cells of a grid hanging from `base`,
/// one combinator per cell (two tiles wide, or two tall in the `compact`
/// layout), row after row, within `max_cols` tiles of width; `start` and
/// `cov` are the substation grid's origin and spacing.
pub struct CombGrid {
    pub base: Position,
    pub compact: bool,
    pub max_cols: int,
    pub start: Position,
    pub cov: int,
}

/// Half the width of a cell, in half tiles.
pub open spec fn mid_x(compact: bool) -> int {
    if compact {
        1
    } else {
        2
    }
}

/// Half the height of a cell, in half tiles, downward.
pub open spec fn mid_y(compact: bool) -> int {
    if compact {
        -2
    } else {
        -1
    }
}

/// Number of cells in a row.
pub open spec fn grid_cols(g: CombGrid) -> int {
    g.max_cols / mid_x(g.compact)
}

/// The middle of cell `(gx, gy)`.
pub open spec fn cell_pos(g: CombGrid, gx: int, gy: int) -> Position {
    Position {
        x2: (g.base.x2 + mid_x(g.compact) * (1 + 2 * gx)) as i64,
        y2: (g.base.y2 + mid_y(g.compact) * (1 + 2 * gy)) as i64,
    }
}

/// The middle of the `l`-th cell, counting row by row.
pub open spec fn lin_pos(g: CombGrid, l: int) -> Position {
    cell_pos(g, l % grid_cols(g), l / grid_cols(g))
}

/// `p` moved by `(dx, dy)` half tiles.
pub open spec fn moved(p: Position, dx: int, dy: int) -> Position {
    Position { x2: (p.x2 + dx) as i64, y2: (p.y2 + dy) as i64 }
}

/// A substation would stand on the point `q`.
pub open spec fn probe_blocked(start: Position, cov: int, q: Position) -> bool {
    cov != 0 && {
        let r = spec_rel(q, start);
        !spec_is_free(r, spec_center(r, cov))
    }
}

/// No substation stands on a cell: neither on the two ends of a wide cell,
/// nor (compact) on those of a tall one.
pub open spec fn cell_free(g: CombGrid, p: Position) -> bool {
    &&& !(g.compact && (probe_blocked(g.start, g.cov, moved(p, 0, -1)) || probe_blocked(
        g.start,
        g.cov,
        moved(p, 0, 1),
    )))
    &&& !probe_blocked(g.start, g.cov, moved(p, -1, 0))
    &&& !probe_blocked(g.start, g.cov, moved(p, 1, 0))
}

/// The points asked about, in order, when checking a cell: the check stops
/// at the first point a substation would stand on.
pub open spec fn cell_queries(g: CombGrid, p: Position) -> Seq<Position> {
    let a = moved(p, 0, -1);
    let b = moved(p, 0, 1);
    let c = moved(p, -1, 0);
    let d = moved(p, 1, 0);
    let wide = if probe_blocked(g.start, g.cov, c) {
        seq![c]
    } else {
        seq![c, d]
    };
    if !g.compact {
        wide
    } else if probe_blocked(g.start, g.cov, a) {
        seq![a]
    } else if probe_blocked(g.start, g.cov, b) {
        seq![a, b]
    } else {
        seq![a, b] + wide
    }
}

/// The `l`-th cell is free.
pub open spec fn lin_free(g: CombGrid, l: int) -> bool {
    cell_free(g, lin_pos(g, l))
}

/// The points asked about when checking the first `l` cells.
pub open spec fn queries_upto(g: CombGrid, l: int) -> Seq<Position>
    decreases l,
{
    if l <= 0 {
        Seq::empty()
    } else {
        queries_upto(g, l - 1) + cell_queries(g, lin_pos(g, l - 1))
    }
}

/// The first free cell at or after the `l`-th.
pub open spec fn first_free_from(g: CombGrid, l: int) -> int {
    choose|m: int| l <= m && lin_free(g, m) && forall|j: int| l <= j < m ==> !lin_free(g, j)
}

/// The cell of the `k`-th data combinator: the first free cell after that of
/// the one before.
pub open spec fn placed(g: CombGrid, k: int) -> int
    decreases k,
{
    if k <= 0 {
        first_free_from(g, 0)
    } else {
        first_free_from(g, placed(g, k - 1) + 1)
    }
}

/// The column of the `k`-th data combinator.
pub open spec fn col_of(g: CombGrid, k: int) -> int {
    placed(g, k) % grid_cols(g)
}

/// The row of the `k`-th data combinator.
pub open spec fn row_of(g: CombGrid, k: int) -> int {
    placed(g, k) / grid_cols(g)
}

/// The last of the first `k` data combinators in column `x`.
pub open spec fn col_last(g: CombGrid, k: int, x: int) -> Option<int>
    decreases k,
{
    if k <= 0 {
        None
    } else if col_of(g, k - 1) == x {
        Some(k - 1)
    } else {
        col_last(g, k - 1, x)
    }
}

/// The wires from data combinator `j` (if any) to data combinator `k`: the
/// timer on red, the pixel data on the green output.
pub open spec fn link_wires(j: Option<int>, first: int, k: int) -> Seq<Wire> {
    match j {
        Some(j) => seq![
            [(first + j) as u32, WIRE_R, (first + k) as u32, WIRE_R],
            [(first + j) as u32, WIRE_OUT_G, (first + k) as u32, WIRE_OUT_G],
        ],
        None => Seq::empty(),
    }
}

/// The wires of the `k`-th data combinator: the first one feeds `feed`;
/// each joins the one before it in its column (above it) and the one in the
/// column to its left, as the preferred direction allows.
pub open spec fn comb_wires(
    g: CombGrid,
    k: int,
    first: int,
    feed: Option<int>,
    prefer_h: bool,
) -> Seq<Wire> {
    let gx = col_of(g, k);
    let gy = row_of(g, k);
    let lead = if k == 0 {
        match feed {
            Some(f) => seq![[first as u32, WIRE_OUT_G, f as u32, WIRE_G]],
            None => Seq::empty(),
        }
    } else {
        Seq::empty()
    };
    let vert = if gy > 0 && (!prefer_h || gx == 0) {
        link_wires(col_last(g, k, gx), first, k)
    } else {
        Seq::empty()
    };
    let horiz = if gx > 0 && (prefer_h || gy == 0) {
        link_wires(col_last(g, k, gx - 1), first, k)
    } else {
        Seq::empty()
    };
    lead + vert + horiz
}

/// The wires of the first `n` data combinators.
pub open spec fn data_wires(
    g: CombGrid,
    n: int,
    first: int,
    feed: Option<int>,
    prefer_h: bool,
) -> Seq<Wire>
    decreases n,
{
    if n <= 0 {
        Seq::empty()
    } else {
        data_wires(g, n - 1, first, feed, prefer_h) + comb_wires(g, n - 1, first, feed, prefer_h)
    }
}

/// A data combinator without settings yet.
pub open spec fn is_data_comb(e: Entity, n: int, pos: Position, dir: u32, first: bool) -> bool {
    &&& e.entity_number == n
    &&& e.name@ == DEC_CB@
    &&& e.position == pos
    &&& e.direction == Some(dir)
    &&& e.control_behavior is None
    &&& e.player_description is None
    &&& e.quality is None
    &&& e.always_on is None
    &&& e.color is None
    &&& if first {
        e.custom_tag matches Some(t) && t@ == "first data comb"@
    } else {
        e.custom_tag is None
    }
}

// ---------------------------------------------------------------------------
// Why a free cell is never far
// ---------------------------------------------------------------------------

/// `v` is within one half tile of the nearest multiple of `d`.
pub open spec fn near_grid(v: int, d: int) -> bool {
    -1 <= v - d * crate::blueprint::substation::round_div(v, d) <= 1
}

/// No substation can stand in row `gy`: the row keeps clear of every grid
/// line of substations.
pub open spec fn row_clear(g: CombGrid, gy: int) -> bool {
    g.cov == 0 || {
        let y = cell_pos(g, 0, gy).y2 - g.start.y2;
        let d = 2 * g.cov;
        if g.compact {
            !near_grid(y - 1, d) && !near_grid(y, d) && !near_grid(y + 1, d)
        } else {
            !near_grid(y, d)
        }
    }
}

/// Grid values within reach of the substation grid.
pub open spec fn grid_ok(g: CombGrid) -> bool {
    &&& crate::blueprint::substation::pos_in_range(g.start)
    &&& (g.cov == 0 || 18 <= g.cov <= 28)
    &&& -0x200_0000_0000 <= g.base.x2 <= 0x200_0000_0000
    &&& -0x200_0000_0000 <= g.base.y2 <= 0x200_0000_0000
    &&& 1 <= g.max_cols <= u32::MAX
    &&& g.compact == (g.max_cols < 2)
}

/// Rows within reach.
pub open spec fn row_ok(gy: int) -> bool {
    0 <= gy <= 0x10_0000_0000
}

/// The middle of a cell within reach is exact.
proof fn lemma_cell_pos(g: CombGrid, gx: int, gy: int)
    requires
        grid_ok(g),
        0 <= gx <= u32::MAX,
        row_ok(gy),
    ensures
        cell_pos(g, gx, gy).x2 == g.base.x2 + mid_x(g.compact) * (1 + 2 * gx),
        cell_pos(g, gx, gy).y2 == g.base.y2 + mid_y(g.compact) * (1 + 2 * gy),
        -0x400_0000_0000 <= cell_pos(g, gx, gy).x2 <= 0x400_0000_0000,
        -0x400_0000_0000 <= cell_pos(g, gx, gy).y2 <= 0x400_0000_0000,
        cell_pos(g, gx, gy).x2 == g.base.x2 + if g.compact {
            1 + 2 * gx
        } else {
            2 + 4 * gx
        },
        cell_pos(g, gx, gy).y2 == g.base.y2 - if g.compact {
            2 + 4 * gy
        } else {
            1 + 2 * gy
        },
{
    if g.compact {
        assert(mid_x(g.compact) * (1 + 2 * gx) == 1 + 2 * gx);
        assert(mid_y(g.compact) == -2);
        assert(mid_y(g.compact) * (1 + 2 * gy) == -2 - 4 * gy) by (nonlinear_arith)
            requires
                mid_y(g.compact) == -2,
        ;
    } else {
        assert(mid_x(g.compact) * (1 + 2 * gx) == 2 + 4 * gx);
        assert(mid_y(g.compact) == -1);
        assert(mid_y(g.compact) * (1 + 2 * gy) == -1 - 2 * gy) by (nonlinear_arith)
            requires
                mid_y(g.compact) == -1,
        ;
    }
}

/// A cell that keeps clear of substations' rows is free.
proof fn lemma_clear_row_free(g: CombGrid, gx: int, gy: int)
    requires
        grid_ok(g),
        0 <= gx < grid_cols(g),
        row_ok(gy),
        row_clear(g, gy),
    ensures
        cell_free(g, cell_pos(g, gx, gy)),
{
    let p = cell_pos(g, gx, gy);
    assert(0 <= g.max_cols / mid_x(g.compact) <= g.max_cols);
    lemma_cell_pos(g, gx, gy);
    lemma_cell_pos(g, 0, gy);
    if g.cov != 0 {
        let d = 2 * g.cov;
        assert forall|dx: int, dy: int|
            -1 <= dx <= 1 && -1 <= dy <= 1 && (g.compact || dy == 0) implies !probe_blocked(
            g.start,
            g.cov,
            #[trigger] moved(p, dx, dy),
        ) by {
            let q = moved(p, dx, dy);
            let r = spec_rel(q, g.start);
            let v = p.y2 - g.start.y2 + dy;
            assert(q.y2 == p.y2 + dy);
            assert(q.x2 == p.x2 + dx);
            assert(r.y2 == v);
            crate::blueprint::substation::lemma_round_div_bounds(r.y2 as int, d);
            crate::blueprint::substation::lemma_round_div_bounds(r.x2 as int, d);
            assert(cell_pos(g, 0, gy).y2 == p.y2);
            assert(!near_grid(v, d));
        }
        assert(!probe_blocked(g.start, g.cov, moved(p, -1, 0)));
        assert(!probe_blocked(g.start, g.cov, moved(p, 1, 0)));
        if g.compact {
            assert(!probe_blocked(g.start, g.cov, moved(p, 0, -1)));
            assert(!probe_blocked(g.start, g.cov, moved(p, 0, 1)));
        }
    }
}

/// Of three values a step `s` apart, the third is not near lines `d` apart
/// when the first two are.
proof fn lemma_three_steps(y: int, s: int, spread: int, d: int, e1: int, e2: int, e3: int)
    requires
        36 <= d,
        (s == 2 && spread == 0) || (s == 4 && spread == 1),
        -spread <= e1 <= spread,
        -spread <= e2 <= spread,
        -spread <= e3 <= spread,
        near_grid(y + e1, d),
        near_grid(y - s + e2, d),
    ensures
        !near_grid(y - 2 * s + e3, d),
{
    if near_grid(y - 2 * s + e3, d) {
        let k1 = crate::blueprint::substation::round_div(y + e1, d);
        let k3 = crate::blueprint::substation::round_div(y - 2 * s + e3, d);
        let m = k1 - k3;
        assert(d * k1 - d * k3 == d * m) by (nonlinear_arith)
            requires
                m == k1 - k3,
        ;
        assert(2 <= d * m <= 12);
        if m >= 1 {
            assert(d * m >= d) by (nonlinear_arith)
                requires
                    m >= 1,
                    d >= 0,
            ;
        } else {
            assert(d * m <= 0) by (nonlinear_arith)
                requires
                    m <= 0,
                    d >= 0,
            ;
        }
    }
}

/// Of three rows in a row, one keeps clear of substations.
proof fn lemma_rows_clear(g: CombGrid, gy: int)
    requires
        grid_ok(g),
        row_ok(gy),
        row_ok(gy + 2),
        !row_clear(g, gy),
        !row_clear(g, gy + 1),
    ensures
        row_clear(g, gy + 2),
{
    let d = 2 * g.cov;
    let y = cell_pos(g, 0, gy).y2 - g.start.y2;
    let s = if g.compact {
        4int
    } else {
        2int
    };
    let spread = if g.compact {
        1int
    } else {
        0int
    };
    lemma_cell_pos(g, 0, gy);
    lemma_cell_pos(g, 0, gy + 1);
    lemma_cell_pos(g, 0, gy + 2);
    assert(cell_pos(g, 0, gy + 1).y2 - g.start.y2 == y - s);
    assert(cell_pos(g, 0, gy + 2).y2 - g.start.y2 == y - 2 * s);
    if g.compact {
        let e1: int = if near_grid(y - 1, d) {
            -1
        } else if near_grid(y, d) {
            0
        } else {
            1
        };
        let e2: int = if near_grid(y - s - 1, d) {
            -1
        } else if near_grid(y - s, d) {
            0
        } else {
            1
        };
        assert(near_grid(y + e1, d));
        assert(near_grid(y - s + e2, d));
        lemma_three_steps(y, s, spread, d, e1, e2, -1);
        lemma_three_steps(y, s, spread, d, e1, e2, 0);
        lemma_three_steps(y, s, spread, d, e1, e2, 1);
        assert(!near_grid(y - 2 * s + (-1), d));
        assert(!near_grid(y - 2 * s + 0, d));
        assert(!near_grid(y - 2 * s + 1, d));
    } else {
        assert(near_grid(y + 0, d));
        assert(near_grid(y - s + 0, d));
        lemma_three_steps(y, s, spread, d, 0, 0, 0);
        assert(!near_grid(y - 2 * s + 0, d));
    }
}

// ---------------------------------------------------------------------------
// Placing the data combinators
// ---------------------------------------------------------------------------

/// Asks for a substation to power `q`; says whether `q` stays free of it.
fn probe(
    occupied: &mut SubstationOccupied,
    q: Position,
    Ghost(base): Ghost<Seq<Position>>,
    Ghost(pts): Ghost<Seq<Position>>,
) -> (free: bool)
    requires
        old(occupied).wf(),
        crate::blueprint::substation::pos_in_range(q),
        old(occupied).spec_requests() == after_requests(
            base,
            pts,
            old(occupied).spec_start(),
            spec_coverage(old(occupied).spec_quality()),
        ),
    ensures
        final(occupied).wf(),
        final(occupied).spec_start() == old(occupied).spec_start(),
        final(occupied).spec_quality() == old(occupied).spec_quality(),
        final(occupied).spec_requests() == after_requests(
            base,
            pts.push(q),
            old(occupied).spec_start(),
            spec_coverage(old(occupied).spec_quality()),
        ),
        free == !probe_blocked(
            old(occupied).spec_start(),
            spec_coverage(old(occupied).spec_quality()),
            q,
        ),
{
    let f = occupied.request(q);
    proof {
        assert(pts.push(q).drop_last() =~= pts);
    }
    f
}

/// Checks whether a substation would stand on the cell around `p`, asking
/// for substations at its ends in order until one is in the way.
fn check_cell(
    occupied: &mut SubstationOccupied,
    p: Position,
    compact: bool,
    Ghost(g): Ghost<CombGrid>,
    Ghost(base): Ghost<Seq<Position>>,
    Ghost(pts): Ghost<Seq<Position>>,
) -> (blocked: bool)
    requires
        old(occupied).wf(),
        g.start == old(occupied).spec_start(),
        g.cov == spec_coverage(old(occupied).spec_quality()),
        g.compact == compact,
        -0x400_0000_0000 <= p.x2 <= 0x400_0000_0000,
        -0x400_0000_0000 <= p.y2 <= 0x400_0000_0000,
        old(occupied).spec_requests() == after_requests(base, pts, g.start, g.cov),
    ensures
        final(occupied).wf(),
        final(occupied).spec_start() == old(occupied).spec_start(),
        final(occupied).spec_quality() == old(occupied).spec_quality(),
        final(occupied).spec_requests() == after_requests(
            base,
            pts + cell_queries(g, p),
            g.start,
            g.cov,
        ),
        blocked == !cell_free(g, p),
{
    let a = Position { x2: p.x2, y2: p.y2 - 1 };
    let b = Position { x2: p.x2, y2: p.y2 + 1 };
    let c = Position { x2: p.x2 - 1, y2: p.y2 };
    let d = Position { x2: p.x2 + 1, y2: p.y2 };
    proof {
        assert(a == moved(p, 0, -1));
        assert(b == moved(p, 0, 1));
        assert(c == moved(p, -1, 0));
        assert(d == moved(p, 1, 0));
    }
    let ghost q = cell_queries(g, p);
    if compact {
        if !probe(occupied, a, Ghost(base), Ghost(pts)) {
            proof {
                assert(pts + q =~= pts.push(a));
            }
            return true;
        }
        if !probe(occupied, b, Ghost(base), Ghost(pts.push(a))) {
            proof {
                assert(pts + q =~= pts.push(a).push(b));
            }
            return true;
        }
        if !probe(occupied, c, Ghost(base), Ghost(pts.push(a).push(b))) {
            proof {
                assert(pts + q =~= pts.push(a).push(b).push(c));
            }
            return true;
        }
        let free = probe(occupied, d, Ghost(base), Ghost(pts.push(a).push(b).push(c)));
        proof {
            assert(pts + q =~= pts.push(a).push(b).push(c).push(d));
        }
        !free
    } else {
        if !probe(occupied, c, Ghost(base), Ghost(pts)) {
            proof {
                assert(pts + q =~= pts.push(c));
            }
            return true;
        }
        let free = probe(occupied, d, Ghost(base), Ghost(pts.push(c)));
        proof {
            assert(pts + q =~= pts.push(c).push(d));
        }
        !free
    }
}

/// The grid's cells in reading order: column and row of the `l`-th.
proof fn lemma_lin_cell(g: CombGrid, gx: int, gy: int)
    requires
        grid_ok(g),
        0 <= gx < grid_cols(g),
        0 <= gy,
    ensures
        (gy * grid_cols(g) + gx) % grid_cols(g) == gx,
        (gy * grid_cols(g) + gx) / grid_cols(g) == gy,
        lin_pos(g, gy * grid_cols(g) + gx) == cell_pos(g, gx, gy),
{
    vstd::arithmetic::div_mod::lemma_fundamental_div_mod_converse(
        gy * grid_cols(g) + gx,
        grid_cols(g),
        gy,
        gx,
    );
}

/// The first free cell from `l` is `m` when `m` is free and no cell between
/// is.
proof fn lemma_first_free(g: CombGrid, l: int, m: int)
    requires
        l <= m,
        lin_free(g, m),
        forall|j: int| l <= j < m ==> !lin_free(g, j),
    ensures
        first_free_from(g, l) == m,
{
    let f = first_free_from(g, l);
    assert(l <= f && lin_free(g, f) && forall|j: int| l <= j < f ==> !lin_free(g, j));
    if f < m {
        assert(!lin_free(g, f));
    }
    if m < f {
        assert(!lin_free(g, m));
    }
}

/// From cell `(gx, gy)` on, finds the first cell no substation stands on,
/// asking for substations at the cells it checks; it is at most three rows
/// further down.
fn find_free_cell(
    occupied: &mut SubstationOccupied,
    gx: i64,
    gy: i64,
    Ghost(g): Ghost<CombGrid>,
    base_x: i64,
    base_y: i64,
    mx: i64,
    my: i64,
    cols: i64,
    compact: bool,
    Ghost(old_reqs): Ghost<Seq<Position>>,
    Ghost(bound): Ghost<int>,
) -> (r: (i64, i64))
    requires
        grid_ok(g),
        g.start == old(occupied).spec_start(),
        g.cov == spec_coverage(old(occupied).spec_quality()),
        g.compact == compact,
        g.base.x2 == base_x,
        g.base.y2 == base_y,
        mx == mid_x(compact),
        my == mid_y(compact),
        cols == grid_cols(g),
        1 <= cols <= g.max_cols,
        0 <= gx <= cols,
        0 <= gy <= bound,
        row_ok(bound + 3),
        old(occupied).wf(),
        old(occupied).spec_requests() == after_requests(
            old_reqs,
            queries_upto(g, gy * cols + gx),
            g.start,
            g.cov,
        ),
    ensures
        gy <= r.1 <= gy + 3,
        0 <= r.0 < cols,
        r.1 * cols + r.0 == first_free_from(g, gy * cols + gx),
        final(occupied).wf(),
        final(occupied).spec_start() == old(occupied).spec_start(),
        final(occupied).spec_quality() == old(occupied).spec_quality(),
        final(occupied).spec_requests() == after_requests(
            old_reqs,
            queries_upto(g, r.1 * cols + r.0 + 1),
            g.start,
            g.cov,
        ),
{
    let ghost gy0 = gy as int;
    let ghost l0 = gy * cols + gx;
    let mut gx = gx;
    let mut gy = gy;
    loop
        invariant_except_break
            grid_ok(g),
            g.start == occupied.spec_start(),
            g.cov == spec_coverage(occupied.spec_quality()),
            g.compact == compact,
            g.base.x2 == base_x,
            g.base.y2 == base_y,
            mx == mid_x(compact),
            my == mid_y(compact),
            cols == grid_cols(g),
            1 <= cols <= g.max_cols,
            0 <= gy0 <= bound,
            row_ok(bound + 3),
            gy0 <= gy <= gy0 + 3,
            0 <= gx <= cols,
            occupied.spec_start() == old(occupied).spec_start(),
            occupied.spec_quality() == old(occupied).spec_quality(),
            l0 <= gy * cols + gx,
            forall|j: int| l0 <= j < gy * cols + gx ==> !lin_free(g, j),
            forall|r: int| gy0 < r < gy ==> !row_clear(g, r),
            gy > gy0 && gx > 0 ==> !row_clear(g, gy as int),
            occupied.wf(),
            occupied.spec_requests() == after_requests(
                old_reqs,
                queries_upto(g, gy * cols + gx),
                g.start,
                g.cov,
            ),
        ensures
            g.start == occupied.spec_start(),
            g.cov == spec_coverage(occupied.spec_quality()),
            occupied.spec_start() == old(occupied).spec_start(),
            occupied.spec_quality() == old(occupied).spec_quality(),
            gy0 <= gy <= gy0 + 3,
            0 <= gx < cols,
            l0 <= gy * cols + gx,
            lin_free(g, gy * cols + gx),
            forall|j: int| l0 <= j < gy * cols + gx ==> !lin_free(g, j),
            occupied.wf(),
            occupied.spec_requests() == after_requests(
                old_reqs,
                queries_upto(g, gy * cols + gx + 1),
                g.start,
                g.cov,
            ),
        decreases gy0 + 3 - gy, cols - gx,
    {
        if gx >= cols {
            proof {
                assert(gx == cols);
                assert((gy + 1) * cols + 0 == gy * cols + gx) by (nonlinear_arith)
                    requires
                        gx == cols,
                ;
                if gy == gy0 + 3 {
                    lemma_rows_clear(g, gy0 + 1);
                }
            }
            gx = 0;
            gy += 1;
        } else {
            let ghost l = gy * cols + gx;
            proof {
                lemma_cell_pos(g, gx as int, gy as int);
                lemma_lin_cell(g, gx as int, gy as int);
                assert(my * (1 + 2 * gy) == g.base.y2 - g.base.y2 + my * (1 + 2 * gy));
            }
            let px = base_x + mx * (1 + 2 * gx);
            let py = base_y + my * (1 + 2 * gy);
            let p = Position { x2: px, y2: py };
            proof {
                assert(p == cell_pos(g, gx as int, gy as int));
                assert(l >= 0) by (nonlinear_arith)
                    requires
                        l == gy * cols + gx,
                        gy >= 0,
                        cols >= 1,
                        gx >= 0,
                ;
            }
            let blocked = check_cell(
                occupied,
                p,
                compact,
                Ghost(g),
                Ghost(old_reqs),
                Ghost(queries_upto(g, l)),
            );
            proof {
                assert(queries_upto(g, l + 1) == queries_upto(g, l) + cell_queries(
                    g,
                    lin_pos(g, l),
                ));
            }
            if blocked {
                proof {
                    if gx == 0 && gy > gy0 {
                        if row_clear(g, gy as int) {
                            lemma_clear_row_free(g, 0, gy as int);
                        }
                    }
                }
                gx += 1;
            } else {
                break;
            }
        }
    }
    proof {
        lemma_first_free(g, l0, gy * cols + gx);
    }
    (gx, gy)
}

/// The data combinator of a column, by number, as `col_last` says.
pub open spec fn col_entry(g: CombGrid, k: int, c: int, first: int) -> Option<u32> {
    match col_last(g, k, c) {
        Some(j) => Some((first + j) as u32),
        None => None,
    }
}

/// Adds the wires of the `k`-th data combinator and records it as the last
/// one of its column.
fn link_comb(
    wires: &mut Vec<Wire>,
    prev_ents_n: &mut Vec<Option<u32>>,
    gx: i64,
    gy: i64,
    curr: u32,
    lead: Option<u32>,
    prefer_h: bool,
    Ghost(g): Ghost<CombGrid>,
    Ghost(k): Ghost<int>,
    Ghost(first): Ghost<int>,
    Ghost(feed): Ghost<Option<int>>,
)
    requires
        0 <= k,
        col_of(g, k) == gx,
        row_of(g, k) == gy,
        0 <= gx < old(prev_ents_n)@.len(),
        0 <= gy,
        curr == first + k,
        0 <= first,
        first + k <= u32::MAX,
        lead == (if k == 0 {
            match feed {
                Some(f) => Some(f as u32),
                None => None::<u32>,
            }
        } else {
            None::<u32>
        }),
        forall|c: int|
            0 <= c < old(prev_ents_n)@.len() ==> #[trigger] old(prev_ents_n)@[c] == col_entry(
                g,
                k,
                c,
                first,
            ),
    ensures
        final(wires)@ == old(wires)@ + comb_wires(g, k, first, feed, prefer_h),
        final(prev_ents_n)@.len() == old(prev_ents_n)@.len(),
        forall|c: int|
            0 <= c < final(prev_ents_n)@.len() ==> #[trigger] final(prev_ents_n)@[c] == col_entry(
                g,
                k + 1,
                c,
                first,
            ),
{
    let ghost before = wires@;
    match lead {
        Some(f) => {
            wires.push([curr, WIRE_OUT_G, f, WIRE_G]);
        },
        None => {},
    }
    let plen = prev_ents_n.len();
    let ux = gx as usize;
    proof {
        assert(ux as int == gx as int);
        assert(old(prev_ents_n)@[ux as int] == col_entry(g, k, gx as int, first));
        if gx > 0 {
            assert(old(prev_ents_n)@[ux - 1] == col_entry(g, k, gx - 1, first));
        }
    }
    if gy > 0 && (!prefer_h || gx == 0) {
        // Joins the combinator above.
        match prev_ents_n[ux] {
            Some(prev) => {
                wires.push([prev, WIRE_R, curr, WIRE_R]);
                wires.push([prev, WIRE_OUT_G, curr, WIRE_OUT_G]);
            },
            None => {},
        }
    }
    if gx > 0 && (prefer_h || gy == 0) {
        // Joins the combinator to the left.
        match prev_ents_n[ux - 1] {
            Some(prev) => {
                wires.push([prev, WIRE_R, curr, WIRE_R]);
                wires.push([prev, WIRE_OUT_G, curr, WIRE_OUT_G]);
            },
            None => {},
        }
    }
    proof {
        assert(wires@ =~= before + comb_wires(g, k, first, feed, prefer_h));
    }
    let ghost old_prev = prev_ents_n@;
    prev_ents_n.set(ux, Some(curr));
    proof {
        assert forall|c: int| 0 <= c < prev_ents_n@.len() implies #[trigger] prev_ents_n@[c]
            == col_entry(g, k + 1, c, first) by {
            assert(col_last(g, k + 1, c) == if col_of(g, k) == c {
                Some(k)
            } else {
                col_last(g, k, c)
            });
            if c != gx {
                assert(prev_ents_n@[c] == old_prev[c]);
                assert(old_prev[c] == col_entry(g, k, c, first));
            }
        }
    }
}

/// How the data combinators link up, given the image's rotation: along
/// rows for an upright image, along columns for one turned on its side.
pub open spec fn prefers_horizontal_links(rotation: ImageRotation) -> bool {
    !(rotation == ImageRotation::Deg0 || rotation == ImageRotation::Deg180)
}

/// The settings that decide the layout, as values: the layout's entities and
/// height (none when no layout is chosen), and whether delta compression is
/// used.
pub open spec fn plan_layout(data: Seq<CombinatorPositionData>, args: BlueprintArgs, max_cols: u32) -> (
    Seq<Entity>,
    int,
) {
    match chosen_layout(data, args.signal_compression, args.grayscale_bits, max_cols) {
        Some(i) => (data[i].blueprint.blueprint.entities@, data[i].dim.y2 as int),
        None => (Seq::empty(), 0),
    }
}

/// Delta compression is on.
pub open spec fn uses_delta(args: BlueprintArgs) -> bool {
    args.signal_compression == Some(SignalCompression::Delta)
}

/// The layout chosen for the settings has what the helpers need, within
/// reach.
pub open spec fn layout_ready(data: Seq<CombinatorPositionData>, args: BlueprintArgs, max_cols: u32) -> bool {
    let (ents, height) = plan_layout(data, args, max_cols);
    &&& small_positions(ents)
    &&& small(height)
    &&& has_needed_tags(ents, uses_delta(args), args.grayscale_bits)
}

/// The grid of a group whose helpers hang from `start_pos`.
pub open spec fn plan_grid(
    start_pos: Position,
    height: int,
    max_cols: u32,
    occ_start: Position,
    cov: int,
) -> CombGrid {
    CombGrid {
        base: Position { x2: start_pos.x2, y2: (start_pos.y2 - height) as i64 },
        compact: max_cols < 2,
        max_cols: max_cols as int,
        start: occ_start,
        cov,
    }
}

/// Whether the layout chosen for the settings can serve the helpers: its
/// positions and height are within reach, and every helper the settings
/// need is described in it.
pub fn layout_is_ready(data: &Vec<CombinatorPositionData>, args: &BlueprintArgs, max_cols: u32) -> (r:
    bool)
    ensures
        r == layout_ready(data@, *args, max_cols),
{
    let delta = match args.signal_compression {
        Some(SignalCompression::Delta) => true,
        _ => false,
    };
    let gb = args.grayscale_bits;
    let idx = select_layout(data, &args.signal_compression, gb, max_cols);
    let empty: Vec<Entity> = Vec::new();
    let (ents, height): (&Vec<Entity>, i64) = match idx {
        Some(i) => (&data[i].blueprint.blueprint.entities, data[i].dim.y2),
        None => (&empty, 0),
    };
    proof {
        assert(plan_layout(data@, *args, max_cols) == (ents@, height as int));
    }
    let mut ok = -0x100_0000_0000 <= height && height <= 0x100_0000_0000;
    let mut k: usize = 0;
    while k < ents.len()
        invariant
            0 <= k <= ents@.len(),
            ok == (small(height as int) && forall|j: int|
                0 <= j < k ==> small((#[trigger] ents@[j]).position.x2 as int) && small(
                    ents@[j].position.y2 as int,
                )),
        decreases ents@.len() - k,
    {
        let p = ents[k].position;
        let here = -0x100_0000_0000 <= p.x2 && p.x2 <= 0x100_0000_0000 && -0x100_0000_0000 <= p.y2
            && p.y2 <= 0x100_0000_0000;
        ok = ok && here;
        k += 1;
    }
    let t_delay = !delta || find_described(ents, "delay").is_some();
    let t_memory = !delta || find_described(ents, "memory").is_some();
    let t_shift = gb == 0 || find_described(ents, ">>").is_some();
    let t_and = gb == 0 || find_described(ents, "AND").is_some();
    let t_mul = !(gb == 1 || gb == 4) || find_described(ents, "*").is_some();
    proof {
        let tags = needed_tags(delta, gb);
        let n = ents@.len() as int;
        let has = has_needed_tags(ents@, delta, gb);
        let each = t_delay && t_memory && t_shift && t_and && t_mul;
        if each {
            assert forall|t: int| 0 <= t < tags.len() implies last_described(
                ents@,
                #[trigger] tags[t],
                n,
            ) is Some by {}
        } else {
            if !t_delay {
                assert(tags[0] == "delay"@);
            } else if !t_memory {
                assert(tags[1] == "memory"@);
            } else if !t_shift {
                let b = if delta { 2int } else { 0int };
                assert(tags[b] == ">>"@);
            } else if !t_and {
                let b = if delta { 2int } else { 0int };
                assert(tags[b + 1] == "AND"@);
            } else {
                let b = (if delta { 2int } else { 0int }) + (if gb > 0 { 2int } else { 0int });
                assert(tags[b] == "*"@);
            }
        }
        assert(has == each);
    }
    ok && t_delay && t_memory && t_shift && t_and && t_mul
}

/// Places the combinators of one group of lamps: the helpers that decode
/// the packed data, where the chosen layout puts them, and `ticks_per_group`
/// data combinators (without data yet) on a grid below them, each in the
/// first cell after the previous one that no substation stands on, asking
/// for substations to power them as it goes.
///
/// Returns the helpers, the data combinators, their wires, and the entity
/// that takes the timer's signal, the entity whose output feeds the lamps,
/// and the next free entity number.
pub fn generate_combinators(
    ticks_per_group: u32,
    occupied: &mut SubstationOccupied,
    base_ent_n: u32,
    start_pos: Position,
    max_cols_per_grp: u32,
    args: &BlueprintArgs,
    layouts: &Vec<CombinatorPositionData>,
) -> (r: (Vec<Entity>, Vec<Entity>, Vec<Wire>, (u32, u32, u32)))
    requires
        1 <= ticks_per_group,
        1 <= max_cols_per_grp,
        1 <= base_ent_n,
        base_ent_n + 5 + ticks_per_group <= u32::MAX,
        old(occupied).wf(),
        small(start_pos.x2 as int),
        small(start_pos.y2 as int),
        layout_ready(layouts@, *args, max_cols_per_grp),
    ensures
        ({
            let delta = uses_delta(*args);
            let gray = args.grayscale_bits;
            let (ents, height) = plan_layout(layouts@, *args, max_cols_per_grp);
            let g = plan_grid(
                start_pos,
                height,
                max_cols_per_grp,
                old(occupied).spec_start(),
                spec_coverage(old(occupied).spec_quality()),
            );
            let base = base_ent_n as int;
            let nh = n_helpers(delta, gray);
            let first = base + nh;
            let n = ticks_per_group as int;
            let feed = if delta {
                Some(base + 1)
            } else if gray > 0 {
                Some(base)
            } else {
                None
            };
            let dir = if max_cols_per_grp < 2 {
                DIR_U
            } else {
                DIR_R
            };
            &&& helpers_are(r.0@, ents, delta, gray, base, start_pos, height)
            &&& r.1@.len() == n
            &&& forall|k: int|
                0 <= k < n ==> is_data_comb(
                    #[trigger] r.1@[k],
                    first + k,
                    lin_pos(g, placed(g, k)),
                    dir,
                    k == 0,
                )
            &&& r.2@ == helper_wires(delta, gray, base) + data_wires(
                g,
                n,
                first,
                feed,
                prefers_horizontal_links(args.image_rotation),
            ) + seq![[base_ent_n, WIRE_R, first as u32, WIRE_R]]
            &&& r.3.0 == base_ent_n
            &&& r.3.1 == if gray > 0 {
                first - 1
            } else if delta {
                base + 1
            } else {
                base
            }
            &&& r.3.2 == first + n
            &&& final(occupied).wf()
            &&& final(occupied).spec_start() == old(occupied).spec_start()
            &&& final(occupied).spec_quality() == old(occupied).spec_quality()
            &&& final(occupied).spec_requests() == after_requests(
                old(occupied).spec_requests(),
                queries_upto(g, placed(g, n - 1) + 1),
                g.start,
                g.cov,
            )
        }),
{
    let ghost delta_s = uses_delta(*args);
    let ghost (ents_s, height_s) = plan_layout(layouts@, *args, max_cols_per_grp);
    let ghost old_reqs = occupied.spec_requests();
    let delta = match args.signal_compression {
        Some(SignalCompression::Delta) => true,
        _ => false,
    };
    let gray_bits = args.grayscale_bits;
    let best = select_layout(layouts, &args.signal_compression, gray_bits, max_cols_per_grp);
    let empty: Vec<Entity> = Vec::new();
    let height: i64 = match best {
        Some(i) => layouts[i].dim.y2,
        None => 0,
    };
    let ents: &Vec<Entity> = match best {
        Some(i) => &layouts[i].blueprint.blueprint.entities,
        None => &empty,
    };
    proof {
        assert(ents@ == ents_s);
        assert(height == height_s);
        if best is None {
            assert(needed_tags(delta, gray_bits).len() == 0) by {
                if needed_tags(delta, gray_bits).len() > 0 {
                    assert(last_described(ents@, needed_tags(delta, gray_bits)[0], 0) is None);
                }
            }
        }
    }
    let (other_ents, mut wires, first_conn, comb_out, first_data) = make_helpers(
        ents,
        delta,
        gray_bits,
        base_ent_n,
        start_pos,
        height,
    );
    let compact = max_cols_per_grp < 2;
    let ghost g = plan_grid(
        start_pos,
        height as int,
        max_cols_per_grp,
        occupied.spec_start(),
        spec_coverage(occupied.spec_quality()),
    );
    let base_x = start_pos.x2;
    let base_y = start_pos.y2 - height;
    let mx: i64 = if compact {
        1
    } else {
        2
    };
    let my: i64 = if compact {
        -2
    } else {
        -1
    };
    let cols: i64 = (max_cols_per_grp as i64) / mx;
    let prefer_h = !(args.image_rotation == ImageRotation::Deg0 || args.image_rotation
        == ImageRotation::Deg180);
    let ghost feed = if delta_s {
        Some(base_ent_n + 1)
    } else if gray_bits > 0 {
        Some(base_ent_n as int)
    } else {
        None
    };
    proof {
        assert(g.base.y2 == base_y);
        occupied.lemma_start_in_range();
        assert(grid_ok(g)) by {
            let q = occupied.spec_quality();
            assert(spec_coverage(q) == 0 || 18 <= spec_coverage(q) <= 28);
        }
        assert(cols == grid_cols(g));
        assert(1 <= cols <= max_cols_per_grp) by (nonlinear_arith)
            requires
                cols == (max_cols_per_grp as int) / (mx as int),
                mx == 1 || mx == 2,
                mx == 2 ==> max_cols_per_grp >= 2,
                max_cols_per_grp >= 1,
        ;
        assert(wires@ =~= helper_wires(delta_s, gray_bits, base_ent_n as int) + data_wires(
            g,
            0,
            first_data as int,
            feed,
            prefer_h,
        ));
    }
    let mut prev_ents_n: Vec<Option<u32>> = Vec::new();
    let mut x: u32 = 0;
    while x < max_cols_per_grp
        invariant
            0 <= x <= max_cols_per_grp,
            prev_ents_n@.len() == x,
            forall|c: int| 0 <= c < x ==> prev_ents_n@[c] is None,
        decreases max_cols_per_grp - x,
    {
        prev_ents_n.push(None);
        x += 1;
    }
    let mut data_cbs: Vec<Entity> = Vec::new();
    let mut gx: i64 = 0;
    let mut gy: i64 = 0;
    let mut curr_ent_n = first_data;
    let mut chunk_i: u32 = 0;
    proof {
        assert(after_requests(old_reqs, queries_upto(g, 0), g.start, g.cov) == old_reqs);
    }
    while chunk_i < ticks_per_group
        invariant
            0 <= chunk_i <= ticks_per_group,
            grid_ok(g),
            g == plan_grid(
                start_pos,
                height as int,
                max_cols_per_grp,
                occupied.spec_start(),
                spec_coverage(occupied.spec_quality()),
            ),
            g.base.x2 == base_x,
            g.base.y2 == base_y,
            compact == g.compact,
            mx == mid_x(compact),
            my == mid_y(compact),
            cols == grid_cols(g),
            1 <= cols <= max_cols_per_grp,
            prefer_h == prefers_horizontal_links(args.image_rotation),
            curr_ent_n == first_data + chunk_i,
            first_data == base_ent_n + n_helpers(delta_s, gray_bits),
            first_data + ticks_per_group <= u32::MAX,
            delta == delta_s,
            feed == (if delta_s {
                Some(base_ent_n + 1)
            } else if gray_bits > 0 {
                Some(base_ent_n as int)
            } else {
                None
            }),
            data_cbs@.len() == chunk_i,
            forall|k: int|
                0 <= k < chunk_i ==> is_data_comb(
                    #[trigger] data_cbs@[k],
                    first_data + k,
                    lin_pos(g, placed(g, k)),
                    if compact {
                        DIR_U
                    } else {
                        DIR_R
                    },
                    k == 0,
                ),
            wires@ == helper_wires(delta_s, gray_bits, base_ent_n as int) + data_wires(
                g,
                chunk_i as int,
                first_data as int,
                feed,
                prefer_h,
            ),
            0 <= gx <= cols,
            0 <= gy <= 4 * chunk_i,
            gy * cols + gx == if chunk_i == 0 {
                0
            } else {
                placed(g, chunk_i - 1) + 1
            },
            occupied.wf(),
            occupied.spec_start() == old(occupied).spec_start(),
            occupied.spec_quality() == old(occupied).spec_quality(),
            occupied.spec_requests() == after_requests(
                old_reqs,
                queries_upto(g, gy * cols + gx),
                g.start,
                g.cov,
            ),
            prev_ents_n@.len() == max_cols_per_grp,
            forall|c: int|
                0 <= c < max_cols_per_grp ==> #[trigger] prev_ents_n@[c] == col_entry(
                    g,
                    chunk_i as int,
                    c,
                    first_data as int,
                ),
            forall|k: int| 0 <= k < chunk_i ==> 0 <= #[trigger] col_of(g, k) < cols,
            forall|k: int| 0 <= k < chunk_i ==> 0 <= #[trigger] row_of(g, k) <= 4 * chunk_i,
        decreases ticks_per_group - chunk_i,
    {
        // Find the first free cell from here.
        let ghost l0 = gy * cols + gx;
        let (fx, fy) = find_free_cell(
            occupied,
            gx,
            gy,
            Ghost(g),
            base_x,
            base_y,
            mx,
            my,
            cols,
            compact,
            Ghost(old_reqs),
            Ghost(4 * chunk_i as int),
        );
        gx = fx;
        gy = fy;
        let ghost l = gy * cols + gx;
        proof {
            lemma_lin_cell(g, gx as int, gy as int);
            lemma_cell_pos(g, gx as int, gy as int);
            if chunk_i == 0 {
                assert(placed(g, 0) == first_free_from(g, 0));
            } else {
                assert(placed(g, chunk_i as int) == first_free_from(g, placed(g, chunk_i - 1) + 1));
            }
            assert(placed(g, chunk_i as int) == l);
            assert(col_of(g, chunk_i as int) == gx);
            assert(row_of(g, chunk_i as int) == gy);
        }
        let px = base_x + mx * (1 + 2 * gx);
        let py = base_y + my * (1 + 2 * gy);
        let p = Position { x2: px, y2: py };
        let mut en = Entity::new(curr_ent_n, DEC_CB.to_owned(), p);
        let mut lead: Option<u32> = None;
        if chunk_i == 0 {
            en = en.with_tag("first data comb");
            if delta {
                lead = Some(base_ent_n + 1);
            } else if gray_bits > 0 {
                lead = Some(base_ent_n);
            }
        }
        let dir = if compact {
            DIR_U
        } else {
            DIR_R
        };
        data_cbs.push(en.with_direction(dir));
        link_comb(
            &mut wires,
            &mut prev_ents_n,
            gx,
            gy,
            curr_ent_n,
            lead,
            prefer_h,
            Ghost(g),
            Ghost(chunk_i as int),
            Ghost(first_data as int),
            Ghost(feed),
        );
        proof {
            let k = chunk_i as int;
            assert(data_wires(g, k + 1, first_data as int, feed, prefer_h) == data_wires(
                g,
                k,
                first_data as int,
                feed,
                prefer_h,
            ) + comb_wires(g, k, first_data as int, feed, prefer_h));
        }
        curr_ent_n += 1;
        gx += 1;
        chunk_i += 1;
    }
    wires.push([first_conn, WIRE_R, first_data, WIRE_R]);
    (other_ents, data_cbs, wires, (first_conn, comb_out, curr_ent_n))
}

// ---------------------------------------------------------------------------
// Reading layouts
// ---------------------------------------------------------------------------

/// What base64 (standard alphabet, with padding) decodes `input` to; `None`
/// where `input` is not valid base64.
pub uninterp spec fn base64_decoded(input: Seq<u8>) -> Option<Seq<u8>>;

/// Decodes standard base64 with `base64::decode`. Trusted: its result is
/// what `base64_decoded` names for the input, `None` where the crate reports
/// an error; the crate panics only for inputs within 8 bytes of the largest
/// length, which the precondition leaves out.
#[verifier::external_body]
fn base64_decode(input: &[u8]) -> (r: Option<Vec<u8>>)
    requires
        input@.len() <= usize::MAX - 8,
    ensures
        match r {
            Some(v) => base64_decoded(input@) == Some(v@),
            None => base64_decoded(input@) is None,
        },
{
    match base64::decode(input) {
        Ok(v) => Some(v),
        Err(_) => None,
    }
}

/// The text that zlib-inflating `input` gives; `None` where `input` is not a
/// valid zlib stream or does not inflate to UTF-8.
pub uninterp spec fn zlib_inflated_text(input: Seq<u8>) -> Option<Seq<char>>;

/// Inflates a zlib stream into text with `flate2::read::ZlibDecoder` and
/// `read_to_string`. Trusted: its result is what `zlib_inflated_text` names
/// for the input, `None` where reading fails.
#[verifier::external_body]
fn zlib_inflate_text(input: &[u8]) -> (r: Option<String>)
    ensures
        match r {
            Some(t) => zlib_inflated_text(input@) == Some(t@),
            None => zlib_inflated_text(input@) is None,
        },
{
    let mut decoder = flate2::read::ZlibDecoder::new(input);
    let mut text = String::new();
    match std::io::Read::read_to_string(&mut decoder, &mut text) {
        Ok(_) => Some(text),
        Err(_) => None,
    }
}

/// The JSON text inside a blueprint string: everything after the version
/// character, base64-decoded and then inflated.
pub open spec fn blueprint_text(bytes: Seq<u8>) -> Option<Seq<char>> {
    match base64_decoded(bytes.subrange(1, bytes.len() as int)) {
        Some(z) => zlib_inflated_text(z),
        None => None,
    }
}

/// The JSON text of a blueprint string. Both a bad base64 body and a bad
/// zlib stream are reported as `Base64`.
pub fn decode_blueprint_string(s: &str) -> (r: Result<String, BlueprintError>)
    requires
        1 <= s.spec_bytes().len() <= usize::MAX - 8,
    ensures
        match blueprint_text(s.spec_bytes()) {
            Some(t) => r matches Ok(text) && text@ == t,
            None => r == Err::<String, BlueprintError>(BlueprintError::Base64),
        },
{
    let bytes = s.as_bytes();
    let body = slice_from(bytes, 1);
    match base64_decode(body) {
        None => Err(BlueprintError::Base64),
        Some(z) => match zlib_inflate_text(z.as_slice()) {
            None => Err(BlueprintError::Base64),
            Some(text) => Ok(text),
        },
    }
}

/// The bytes of `b` from `start` on.
fn slice_from(b: &[u8], start: usize) -> (r: &[u8])
    requires
        start <= b@.len(),
    ensures
        r@ == b@.subrange(start as int, b@.len() as int),
{
    vstd::slice::slice_subrange(b, start, b.len())
}

/// Half the size of an entity in half tiles, along x and y, or the error
/// for an entity a layout cannot hold.
pub open spec fn half_size(e: Entity) -> Result<(int, int), BlueprintError> {
    if e.name@ == ARI_CB@ || e.name@ == DEC_CB@ {
        let d = match e.direction {
            Some(d) => d,
            None => 0,
        };
        if d == DIR_U || d == crate::blueprint::constants::DIR_D {
            Ok((1, 2))
        } else if d == crate::blueprint::constants::DIR_L || d == DIR_R {
            Ok((2, 1))
        } else {
            Err(BlueprintError::UnsupportedEntityDirection)
        }
    } else if e.name@ == crate::blueprint::constants::CONSTANT_COMB@ {
        Ok((1, 1))
    } else {
        Err(BlueprintError::UnsupportedEntityType)
    }
}

/// The box around the first `k` entities (least x, least y, greatest x,
/// greatest y, in half tiles; `None` for no entities), or the error of the
/// first entity that has no size.
pub open spec fn bounds(ents: Seq<Entity>, k: int) -> Result<Option<(int, int, int, int)>, BlueprintError>
    decreases k,
{
    if k <= 0 {
        Ok(None)
    } else {
        match bounds(ents, k - 1) {
            Err(err) => Err(err),
            Ok(b) => match half_size(ents[k - 1]) {
                Err(err) => Err(err),
                Ok((hx, hy)) => {
                    let p = ents[k - 1].position;
                    let (lx, ly, hx2, hy2) = (p.x2 - hx, p.y2 - hy, p.x2 + hx, p.y2 + hy);
                    Ok(
                        Some(
                            match b {
                                None => (lx, ly, hx2, hy2),
                                Some((x0, y0, x1, y1)) => (
                                    if lx < x0 {
                                        lx
                                    } else {
                                        x0
                                    },
                                    if ly < y0 {
                                        ly
                                    } else {
                                        y0
                                    },
                                    if hx2 > x1 {
                                        hx2
                                    } else {
                                        x1
                                    },
                                    if hy2 > y1 {
                                        hy2
                                    } else {
                                        y1
                                    },
                                ),
                            },
                        ),
                    )
                },
            },
        }
    }
}

/// `e` moved by `(-dx, -dy)` half tiles, otherwise the same.
pub open spec fn shifted_back(e: Entity, dx: int, dy: int) -> Entity {
    Entity { position: Position { x2: (e.position.x2 - dx) as i64, y2: (e.position.y2 - dy) as i64 }, ..e }
}

/// Half the size of an entity, or the error for one a layout cannot hold.
fn entity_half_size(e: &Entity) -> (r: Result<(i64, i64), BlueprintError>)
    ensures
        match half_size(*e) {
            Ok((hx, hy)) => r == Ok::<(i64, i64), BlueprintError>((hx as i64, hy as i64)),
            Err(err) => r == Err::<(i64, i64), BlueprintError>(err),
        },
{
    let ari = ARI_CB.to_owned();
    let dec = DEC_CB.to_owned();
    let cons = crate::blueprint::constants::CONSTANT_COMB.to_owned();
    if e.name == ari || e.name == dec {
        let d = match e.direction {
            Some(d) => d,
            None => 0,
        };
        if d == DIR_U || d == crate::blueprint::constants::DIR_D {
            Ok((1, 2))
        } else if d == crate::blueprint::constants::DIR_L || d == DIR_R {
            Ok((2, 1))
        } else {
            Err(BlueprintError::UnsupportedEntityDirection)
        }
    } else if e.name == cons {
        Ok((1, 1))
    } else {
        Err(BlueprintError::UnsupportedEntityType)
    }
}

/// Moves a layout so that its box starts at the origin, and measures it:
/// returns the moved entities and the box's size in half tiles (nothing to
/// measure gives size zero). A combinator facing no side, or an entity other
/// than a combinator, is an error.
pub fn normalize_layout(ents: Vec<Entity>) -> (r: Result<(Vec<Entity>, Position), BlueprintError>)
    requires
        small_positions(ents@),
    ensures
        match bounds(ents@, ents@.len() as int) {
            Err(err) => r == Err::<(Vec<Entity>, Position), BlueprintError>(err),
            Ok(None) => r matches Ok((v, dim)) && v@ == ents@ && dim == (Position { x2: 0, y2: 0 }),
            Ok(Some((x0, y0, x1, y1))) => r matches Ok((v, dim)) && dim == (Position {
                x2: (x1 - x0) as i64,
                y2: (y1 - y0) as i64,
            }) && v@ == ents@.map_values(|e: Entity| shifted_back(e, x0, y0)),
        },
{
    let mut have = false;
    let mut x0: i64 = 0;
    let mut y0: i64 = 0;
    let mut x1: i64 = 0;
    let mut y1: i64 = 0;
    let mut i: usize = 0;
    while i < ents.len()
        invariant
            0 <= i <= ents@.len(),
            small_positions(ents@),
            bounds(ents@, i as int) == if have {
                Ok::<Option<(int, int, int, int)>, BlueprintError>(Some((x0 as int, y0 as int, x1 as int, y1 as int)))
            } else {
                Ok::<Option<(int, int, int, int)>, BlueprintError>(None)
            },
            have ==> x0 <= x1 && y0 <= y1,
            have ==> -0x100_0000_0002 <= x0 && x1 <= 0x100_0000_0002 && -0x100_0000_0002 <= y0 && y1 <= 0x100_0000_0002,
        decreases ents@.len() - i,
    {
        let p = ents[i].position;
        match entity_half_size(&ents[i]) {
            Err(e) => {
                proof {
                    lemma_bounds_err(ents@, i as int + 1, ents@.len() as int);
                }
                return Err(e);
            },
            Ok((hx, hy)) => {
                proof {
                    assert(small(p.x2 as int) && small(p.y2 as int));
                }
                let lx = p.x2 - hx;
                let ly = p.y2 - hy;
                let ux = p.x2 + hx;
                let uy = p.y2 + hy;
                if !have {
                    x0 = lx;
                    y0 = ly;
                    x1 = ux;
                    y1 = uy;
                    have = true;
                } else {
                    if lx < x0 {
                        x0 = lx;
                    }
                    if ly < y0 {
                        y0 = ly;
                    }
                    if ux > x1 {
                        x1 = ux;
                    }
                    if uy > y1 {
                        y1 = uy;
                    }
                }
            },
        }
        i += 1;
    }
    if !have {
        proof {
            assert(ents@.len() == 0) by {
                if ents@.len() > 0 {
                    lemma_bounds_some(ents@, ents@.len() as int);
                }
            }
        }
        return Ok((ents, Position { x2: 0, y2: 0 }));
    }
    let ghost orig = ents@;
    proof {
        assert(-0x100_0000_0002 <= x0 <= 0x100_0000_0002);
    }
    let mut out: Vec<Entity> = Vec::new();
    let mut rest = ents;
    let mut k: usize = 0;
    let n = rest.len();
    while k < n
        invariant
            n == orig.len(),
            0 <= k <= n,
            rest@ == orig.subrange(k as int, n as int),
            out@ == orig.take(k as int).map_values(|e: Entity| shifted_back(e, x0 as int, y0 as int)),
            small_positions(orig),
            -0x100_0000_0002 <= x0 <= 0x100_0000_0002,
            -0x100_0000_0002 <= y0 <= 0x100_0000_0002,
        decreases n - k,
    {
        let mut e = rest.remove(0);
        proof {
            assert(e == orig[k as int]);
            assert(small(e.position.x2 as int) && small(e.position.y2 as int));
        }
        e.position = Position { x2: e.position.x2 - x0, y2: e.position.y2 - y0 };
        out.push(e);
        proof {
            assert(rest@ =~= orig.subrange(k + 1, n as int));
            assert(out@ =~= orig.take(k + 1).map_values(|e: Entity| shifted_back(e, x0 as int, y0 as int)));
        }
        k += 1;
    }
    proof {
        assert(orig.take(n as int) =~= orig);
    }
    Ok((out, Position { x2: x1 - x0, y2: y1 - y0 }))
}

/// Once an entity has no size, the box of any longer prefix is that error.
proof fn lemma_bounds_err(ents: Seq<Entity>, k: int, m: int)
    requires
        0 < k <= m <= ents.len(),
        bounds(ents, k) is Err,
    ensures
        bounds(ents, m) == bounds(ents, k),
    decreases m - k,
{
    if m > k {
        lemma_bounds_err(ents, k, m - 1);
    }
}

/// A box without error around some entities is not empty.
proof fn lemma_bounds_some(ents: Seq<Entity>, k: int)
    requires
        0 < k <= ents.len(),
        bounds(ents, k) is Ok,
    ensures
        bounds(ents, k) matches Ok(Some(_)),
{
}

} // verus!
