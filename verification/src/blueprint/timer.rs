//! The clock of the display: a counter that steps through the frames.
use crate::blueprint::constants::{
    ARI_CB, COMP_EQ, COMP_LT, CONSTANT_COMB, DEC_CB, DIR_L, DIR_R, OP_DIV, OP_MOD, OP_MUL, OP_SUB,
    SIG_EACH, SIG_F, SIG_S, SIG_T, SIG_TYPE_VIRTUAL, TIMER1_POS, TIMER2_POS, TIMER3_POS, TIMER4_POS,
    TIMER5_POS, TIMER6_POS, WIRE_OUT_R, WIRE_R,
};
use crate::blueprint::models::{
    ArithmeticConditions, BlueprintArgs, CombinatorOutput, Condition, ControlBehavior,
    DeciderConditions, Entity, Filter, Position, Quality, Section, Sections, Signal, Wire,
};
use vstd::prelude::*;

verus! {

/// `s` is the virtual signal `name`, of no particular quality.
pub open spec fn is_virtual_signal(s: Signal, name: Seq<char>) -> bool {
    s.type_@ == SIG_TYPE_VIRTUAL@ && s.name@ == name && s.quality is None
}

/// `o` is `Some` virtual signal `name`.
pub open spec fn is_some_virtual(o: Option<Signal>, name: Seq<char>) -> bool {
    o matches Some(s) && is_virtual_signal(s, name)
}

/// The settings `in op second => out` of an arithmetic combinator on virtual
/// signals.
pub open spec fn is_arithmetic_virtual(
    ac: ArithmeticConditions,
    input: Seq<char>,
    op: Seq<char>,
    second: i32,
    out: Seq<char>,
) -> bool {
    &&& is_some_virtual(ac.first_signal, input)
    &&& ac.second_signal is None
    &&& ac.second_constant == Some(second)
    &&& ac.operation matches Some(o) && o@ == op
    &&& is_some_virtual(ac.output_signal, out)
}

/// An entity with the given number, name, position and direction, no
/// quality, colour, tag or always-on setting.
pub open spec fn is_plain_entity(
    e: Entity,
    n: u32,
    name: Seq<char>,
    pos: (i64, i64),
    dir: Option<u32>,
) -> bool {
    &&& e.entity_number == n
    &&& e.name@ == name
    &&& e.position == (Position { x2: pos.0, y2: pos.1 })
    &&& e.direction == dir
    &&& e.quality is None
    &&& e.always_on is None
    &&& e.custom_tag is None
    &&& e.color is None
}

/// An arithmetic combinator computing `in op second => out`.
pub open spec fn is_arithmetic_entity(
    e: Entity,
    n: u32,
    pos: (i64, i64),
    dir: Option<u32>,
    input: Seq<char>,
    op: Seq<char>,
    second: i32,
    out: Seq<char>,
) -> bool {
    &&& is_plain_entity(e, n, ARI_CB@, pos, dir)
    &&& e.control_behavior matches Some(ControlBehavior::Arithmetic { arithmetic_conditions: ac })
        && is_arithmetic_virtual(ac, input, op, second, out)
}

/// The timer's constant combinator: it holds `signal-T = 1`.
pub open spec fn is_timer_source(e: Entity) -> bool {
    &&& is_plain_entity(e, 1, CONSTANT_COMB@, TIMER1_POS, Some(DIR_R))
    &&& e.player_description is None
    &&& e.control_behavior matches Some(ControlBehavior::Constant { sections })
        && sections.sections@.len() == 1 && sections.sections@[0].index == 1
        && sections.sections@[0].filters@.len() == 1 && {
        let f = sections.sections@[0].filters@[0];
        &&& f.index == 1
        &&& f.type_@ == SIG_TYPE_VIRTUAL@
        &&& f.name@ == SIG_T@
        &&& f.quality == Some(Quality::Normal)
        &&& f.comparator matches Some(c) && c@ == COMP_EQ@
        &&& f.count == Some(1u32)
    }
}

/// The condition `signal-T < stop`.
pub open spec fn is_counter_condition(c: Condition, stop: u32) -> bool {
    &&& is_some_virtual(c.first_signal, SIG_T@)
    &&& c.constant == Some(stop as i32)
    &&& c.comparator matches Some(k) && k@ == COMP_LT@
    &&& c.compare_type is None
    &&& c.first_signal_networks is None
}

/// An output that copies the input count of the virtual signal `name`.
pub open spec fn is_copy_output(o: CombinatorOutput, name: Seq<char>) -> bool {
    &&& is_some_virtual(o.signal, name)
    &&& o.constant is None
    &&& o.copy_count_from_input == Some(true)
    &&& o.networks is None
}

/// The settings of the timer's decider.
pub open spec fn is_counter_decider(d: DeciderConditions, stop: u32) -> bool {
    &&& d.conditions matches Some(cs) && cs@.len() == 1 && is_counter_condition(cs@[0], stop)
    &&& d.outputs matches Some(os) && os@.len() == 1 && is_copy_output(os@[0], SIG_T@)
}

/// The timer's decider: passes `signal-T` on while it is below `stop`.
pub open spec fn is_timer_counter(e: Entity, stop: u32) -> bool {
    &&& is_plain_entity(e, 2, DEC_CB@, TIMER2_POS, Some(DIR_R))
    &&& e.control_behavior matches Some(ControlBehavior::Decider { decider_conditions: d })
        && is_counter_decider(d, stop)
}

/// The wires of the timer: three always, four more with grayscale.
pub open spec fn timer_wires(gray: bool) -> Seq<Wire> {
    let base = seq![
        [1u32, WIRE_R, 2, WIRE_R],
        [2u32, WIRE_R, 2, WIRE_OUT_R],
        [2u32, WIRE_R, 3, WIRE_R],
    ];
    if gray {
        base + seq![
            [3u32, WIRE_R, 4, WIRE_R],
            [4u32, WIRE_OUT_R, 5, WIRE_R],
            [5u32, WIRE_OUT_R, 6, WIRE_R],
            [6u32, WIRE_OUT_R, 3, WIRE_OUT_R],
        ]
    } else {
        base
    }
}

/// The timer's entities: counter source, counter and decrement, and with
/// grayscale also the frame-in-combinator and bit-shift arithmetic.
pub open spec fn is_timer(
    ents: Seq<Entity>,
    wires: Seq<Wire>,
    stop: u32,
    gray_bits: u32,
    ticks_per_frame: u32,
    frames_per_comb: u32,
) -> bool {
    &&& ents.len() == (if gray_bits > 0 { 6int } else { 3int })
    &&& is_timer_source(ents[0])
    &&& is_timer_counter(ents[1], stop)
    &&& is_arithmetic_entity(ents[2], 3, TIMER3_POS, Some(DIR_R), SIG_T@, OP_SUB@, 1, SIG_T@)
    &&& ents[2].player_description is None
    &&& gray_bits > 0 ==> {
        &&& is_arithmetic_entity(
            ents[3],
            4,
            TIMER4_POS,
            Some(DIR_L),
            SIG_T@,
            OP_MOD@,
            (ticks_per_frame * frames_per_comb) as i32,
            SIG_S@,
        )
        &&& ents[3].player_description is None
        &&& is_arithmetic_entity(
            ents[4],
            5,
            TIMER5_POS,
            None,
            SIG_S@,
            OP_DIV@,
            ticks_per_frame as i32,
            SIG_F@,
        )
        &&& ents[4].player_description is None
        &&& is_arithmetic_entity(
            ents[5],
            6,
            TIMER6_POS,
            Some(DIR_R),
            SIG_EACH@,
            OP_MUL@,
            gray_bits as i32,
            SIG_EACH@,
        )
        &&& ents[5].player_description is Some
    }
    &&& ents[1].player_description is Some
    &&& wires == timer_wires(gray_bits > 0)
}

/// `in op second => out` on virtual signals.
pub fn arithmetic_virtual(input: &str, op: &str, second: i32, out: &str) -> (ac: ArithmeticConditions)
    ensures
        is_arithmetic_virtual(ac, input@, op@, second, out@),
{
    ArithmeticConditions {
        first_signal: Some(Signal::new_virtual(input.to_owned())),
        second_signal: None,
        second_constant: Some(second),
        operation: Some(op.to_owned()),
        output_signal: Some(Signal::new_virtual(out.to_owned())),
    }
}

fn pos_of(p: (i64, i64)) -> (r: Position)
    ensures
        r == (Position { x2: p.0, y2: p.1 }),
{
    Position::new(p.0, p.1)
}

/// Builds the timer with the given descriptions for the counter and for the
/// bit-shift combinator.
pub fn timer_entities(
    stop: u32,
    gray_bits: u32,
    ticks_per_frame: u32,
    frames_per_comb: u32,
    counter_desc: &str,
    shift_desc: &str,
) -> (r: (Vec<Entity>, Vec<Wire>))
    requires
        gray_bits > 0 ==> ticks_per_frame * frames_per_comb <= u32::MAX,
    ensures
        is_timer(r.0@, r.1@, stop, gray_bits, ticks_per_frame, frames_per_comb),
        r.0@[1].player_description matches Some(d) && d@ == counter_desc@,
        gray_bits > 0 ==> (r.0@[5].player_description matches Some(d) && d@ == shift_desc@),
{
    let mut ents: Vec<Entity> = Vec::new();
    let mut wires: Vec<Wire> = Vec::new();

    let ent = Entity::new(1, CONSTANT_COMB.to_owned(), pos_of(TIMER1_POS)).with_direction(DIR_R);
    let mut filters: Vec<Filter> = Vec::new();
    filters.push(
        Filter {
            index: 1,
            type_: SIG_TYPE_VIRTUAL.to_owned(),
            name: SIG_T.to_owned(),
            quality: Some(Quality::Normal),
            comparator: Some(COMP_EQ.to_owned()),
            count: Some(1),
        },
    );
    let mut sections: Vec<Section> = Vec::new();
    sections.push(Section { index: 1, filters });
    ents.push(ent.with_control_behavior(ControlBehavior::Constant { sections: Sections { sections } }));

    let mut ent = Entity::new(2, DEC_CB.to_owned(), pos_of(TIMER2_POS)).with_direction(DIR_R);
    ent = ent.with_description(counter_desc);
    let mut conditions: Vec<Condition> = Vec::new();
    conditions.push(
        Condition {
            first_signal: Some(Signal::new_virtual(SIG_T.to_owned())),
            constant: Some(stop as i32),
            comparator: Some(COMP_LT.to_owned()),
            compare_type: None,
            first_signal_networks: None,
        },
    );
    let mut outputs: Vec<CombinatorOutput> = Vec::new();
    outputs.push(CombinatorOutput::new(Signal::new_virtual(SIG_T.to_owned()), None));
    ents.push(
        ent.with_control_behavior(
            ControlBehavior::Decider {
                decider_conditions: DeciderConditions {
                    conditions: Some(conditions),
                    outputs: Some(outputs),
                },
            },
        ),
    );

    let ent = Entity::new(3, ARI_CB.to_owned(), pos_of(TIMER3_POS)).with_direction(DIR_R);
    let conds = arithmetic_virtual(SIG_T, OP_SUB, 1, SIG_T);
    ents.push(ent.with_control_behavior(ControlBehavior::from_arithmetic_conditions(conds)));

    wires.push([1, WIRE_R, 2, WIRE_R]);
    wires.push([2, WIRE_R, 2, WIRE_OUT_R]);
    wires.push([2, WIRE_R, 3, WIRE_R]);

    if gray_bits > 0 {
        let ent = Entity::new(4, ARI_CB.to_owned(), pos_of(TIMER4_POS)).with_direction(DIR_L);
        let conds = arithmetic_virtual(
            SIG_T,
            OP_MOD,
            (ticks_per_frame * frames_per_comb) as i32,
            SIG_S,
        );
        ents.push(ent.with_control_behavior(ControlBehavior::from_arithmetic_conditions(conds)));

        let ent = Entity::new(5, ARI_CB.to_owned(), pos_of(TIMER5_POS));
        let conds = arithmetic_virtual(SIG_S, OP_DIV, ticks_per_frame as i32, SIG_F);
        ents.push(ent.with_control_behavior(ControlBehavior::from_arithmetic_conditions(conds)));

        let mut ent = Entity::new(6, ARI_CB.to_owned(), pos_of(TIMER6_POS)).with_direction(DIR_R);
        let conds = arithmetic_virtual(SIG_EACH, OP_MUL, gray_bits as i32, SIG_EACH);
        ent = ent.with_description(shift_desc);
        ents.push(ent.with_control_behavior(ControlBehavior::from_arithmetic_conditions(conds)));

        wires.push([3, WIRE_R, 4, WIRE_R]);
        wires.push([4, WIRE_OUT_R, 5, WIRE_R]);
        wires.push([5, WIRE_OUT_R, 6, WIRE_R]);
        wires.push([6, WIRE_OUT_R, 3, WIRE_OUT_R]);
    }
    assert(wires@ =~= timer_wires(gray_bits > 0));
    (ents, wires)
}

/// Generates timer entities and wires for the blueprint's timing mechanism.
///
/// This is only run once for the entire blueprint. `stop` is the tick at
/// which the counter starts over; with grayscale, three more combinators work
/// out which frame of a data combinator is shown and by how many bits to
/// shift.
pub fn generate_timer(
    stop: u32,
    ticks_per_frame: u32,
    frames_per_comb: u32,
    args: &BlueprintArgs,
) -> (r: (Vec<Entity>, Vec<Wire>))
    requires
        args.grayscale_bits > 0 ==> ticks_per_frame * frames_per_comb <= u32::MAX,
    ensures
        is_timer(r.0@, r.1@, stop, args.grayscale_bits, ticks_per_frame, frames_per_comb),
{
    timer_entities(
        stop,
        args.grayscale_bits,
        ticks_per_frame,
        frames_per_comb,
        "[virtual-signal=signal-T] increments 60 times per second up to the GIF's frame count, then resets to 0. It determines the current frame.",
        "Calculates the bit shift for current frame.",
    )
}

} // verus!
