//! The lamp grid: one lamp per pixel, each reading its own signal, joined by
//! wires that carry the pixel data (green) and the timing signal (red).
use crate::blueprint::constants::{LAMP, WIRE_G, WIRE_R};
use crate::blueprint::models::{
    BlueprintArgs, Color, ControlBehavior, Entity, ImageRotation, Mode, Position, Signal, Wire,
};
use crate::blueprint::substation::{
    after_requests, pos_in_range, spec_center, spec_coverage, spec_is_free, spec_rel, SubstationOccupied,
};
use crate::blueprint::util::RgbaFrame;
use vstd::prelude::*;

verus! {

/// Whether a substation leaves the cell at `pos` free for a lamp.
pub open spec fn cell_free(start: Position, q: Option<crate::blueprint::models::Quality>, pos: Position) -> bool {
    spec_coverage(q) == 0 || spec_is_free(
        spec_rel(pos, start),
        spec_center(spec_rel(pos, start), spec_coverage(q)),
    )
}

/// Centre of the lamp in row `r`, column `c` of a grid whose corner is at
/// `start`.
pub open spec fn lamp_pos(start: Position, r: int, c: int) -> Position {
    Position { x2: (start.x2 + 1 + 2 * c) as i64, y2: (start.y2 + 1 + 2 * r) as i64 }
}

/// Lamps that show a fixed colour rather than reading signals.
pub open spec fn is_static_colors(mode: Mode) -> bool {
    mode matches Mode::Static { combs: false, .. }
}

/// The way lamps are wired runs along rows rather than columns.
pub open spec fn prefers_horizontal(args: BlueprintArgs) -> bool {
    args.prefer_horizontal_wires != (args.image_rotation == ImageRotation::Deg90
        || args.image_rotation == ImageRotation::Deg270)
}

/// The settings of a lamp that reads `signal`: one signal for all three
/// channels in grayscale, one packed RGB signal otherwise.
pub open spec fn is_lamp_behavior(cb: ControlBehavior, signal: Signal, gray: bool) -> bool {
    if gray {
        cb == (ControlBehavior::GrayLamp {
            use_colors: true,
            color_mode: 1,
            red_signal: signal,
            green_signal: signal,
            blue_signal: signal,
        })
    } else {
        cb == (ControlBehavior::ColorLamp { use_colors: true, color_mode: 2, rgb_signal: signal })
    }
}

/// The lamp at row `r`, column `c`.
pub open spec fn is_lamp(
    e: Entity,
    n: int,
    pos: Position,
    args: BlueprintArgs,
    signals: Seq<Signal>,
    index: int,
    frame: Option<RgbaFrame>,
    c: int,
    r: int,
) -> bool {
    &&& e.entity_number == n
    &&& e.name@ == LAMP@
    &&& e.position == pos
    &&& e.direction is None
    &&& e.player_description is None
    &&& e.quality is None
    &&& e.always_on == Some(true)
    &&& e.custom_tag is None
    &&& if is_static_colors(args.mode) {
        &&& e.control_behavior is None
        &&& e.color == Some(
            Color {
                r: frame.unwrap().spec_channel(c, r, 0),
                g: frame.unwrap().spec_channel(c, r, 1),
                b: frame.unwrap().spec_channel(c, r, 2),
                a: frame.unwrap().spec_channel(c, r, 3),
            },
        )
    } else {
        &&& e.color is None
        &&& e.control_behavior matches Some(cb) && is_lamp_behavior(
            cb,
            signals[index],
            args.grayscale_bits > 0,
        )
    }
}

/// Wiring state while walking a row from right to left: the lamps placed
/// so far per column, the lamp placed last in this row, whether the row is
/// already joined to the one above, and whether the last lamp was a top lamp.
pub struct WireState {
    pub wires: Seq<Wire>,
    pub cols: Seq<Option<u32>>,
    pub prev: Option<u32>,
    pub did_connect: bool,
    pub was_top: bool,
    pub top_left: Option<u32>,
}

/// The wires added for lamp `n` in column `c` of row `r`, and the state
/// after it.
pub open spec fn wire_step(st: WireState, n: u32, c: int, r: int, grid_only: bool, ph: bool) -> WireState {
    let is_top = st.cols[c] is None;
    let w1 = if !grid_only && is_top && (r == 0 || st.top_left is None) && st.prev is Some {
        seq![[n, WIRE_R, st.prev.unwrap(), WIRE_R]]
    } else {
        Seq::<Wire>::empty()
    };
    let w2 = if (is_top || ph || st.was_top) && st.prev is Some {
        seq![[n, WIRE_G, st.prev.unwrap(), WIRE_G]]
    } else {
        Seq::<Wire>::empty()
    };
    let vertical = (!st.did_connect || !ph) && st.cols[c] is Some;
    let w3 = if vertical {
        seq![[n, WIRE_G, st.cols[c].unwrap(), WIRE_G]]
    } else {
        Seq::<Wire>::empty()
    };
    WireState {
        wires: st.wires + w1 + w2 + w3,
        cols: st.cols,
        prev: st.prev,
        did_connect: st.did_connect || vertical,
        was_top: is_top,
        top_left: st.top_left,
    }
}

/// Everything `generate_lamps` has built after visiting the first `k` cells
/// (rows top to bottom, each row right to left): the cells that got a lamp
/// (row, column), the wiring state, the first lamp placed, and the cells
/// asked about in turn.
pub struct LampRun {
    pub placed: Seq<(int, int)>,
    pub st: WireState,
    pub top_right: Option<u32>,
    pub requested: Seq<Position>,
}

/// Row of the `k`-th visited cell.
pub open spec fn visit_row(k: int, gx: int) -> int {
    k / gx
}

/// Column of the `k`-th visited cell.
pub open spec fn visit_col(k: int, gx: int) -> int {
    gx - 1 - k % gx
}

/// The wiring state at the start of a row.
pub open spec fn row_reset(st: WireState) -> WireState {
    WireState { prev: None, did_connect: false, was_top: false, ..st }
}

/// The wiring state at the end of a row: the first row with a lamp gives the
/// top-left lamp (the last one placed in it, the leftmost).
pub open spec fn row_end(st: WireState) -> WireState {
    WireState { top_left: if st.top_left is None { st.prev } else { st.top_left }, ..st }
}

/// The grid after visiting cell `j` (row `j / gx`, column `gx - 1 - j % gx`).
pub open spec fn lamp_step(
    prev_run: LampRun,
    j: int,
    gx: int,
    start: Position,
    q: Option<crate::blueprint::models::Quality>,
    occ_start: Position,
    base: int,
    args: BlueprintArgs,
) -> LampRun {
    let r = visit_row(j, gx);
    let c = visit_col(j, gx);
    let st0 = if j % gx == 0 { row_reset(row_end(prev_run.st)) } else { prev_run.st };
    let pos = lamp_pos(start, r, c);
    let requested = prev_run.requested.push(pos);
    if !cell_free(occ_start, q, pos) {
        LampRun { st: st0, requested, ..prev_run }
    } else {
        let n = (base + r * gx + c) as u32;
        let st1 = if is_static_colors(args.mode) {
            st0
        } else {
            wire_step(st0, n, c, r, args.mode == Mode::LampGrid, prefers_horizontal(args))
        };
        LampRun {
            placed: prev_run.placed.push((r, c)),
            st: WireState { prev: Some(n), cols: st1.cols.update(c, Some(n)), ..st1 },
            top_right: if prev_run.top_right is None { Some(n) } else { prev_run.top_right },
            requested,
        }
    }
}

/// The lamp grid after `k` cells.
pub open spec fn lamp_run(
    k: nat,
    gx: int,
    start: Position,
    q: Option<crate::blueprint::models::Quality>,
    occ_start: Position,
    base: int,
    args: BlueprintArgs,
) -> LampRun
    decreases k,
{
    if k == 0 {
        LampRun {
            placed: Seq::empty(),
            st: WireState {
                wires: Seq::empty(),
                cols: Seq::new(gx as nat, |i: int| None::<u32>),
                prev: None,
                did_connect: false,
                was_top: false,
                top_left: None,
            },
            top_right: None,
            requested: Seq::empty(),
        }
    } else {
        lamp_step(
            lamp_run((k - 1) as nat, gx, start, q, occ_start, base, args),
            k - 1,
            gx,
            start,
            q,
            occ_start,
            base,
            args,
        )
    }
}

/// Lamps never stand where a substation does: every cell that gets a lamp
/// is free of the substation grid.
pub proof fn lemma_lamps_on_free_cells(
    k: nat,
    gx: int,
    start: Position,
    q: Option<crate::blueprint::models::Quality>,
    occ_start: Position,
    base: int,
    args: BlueprintArgs,
)
    ensures
        ({
            let run = lamp_run(k, gx, start, q, occ_start, base, args);
            forall|m: int|
                0 <= m < run.placed.len() ==> cell_free(
                    occ_start,
                    q,
                    lamp_pos(start, (#[trigger] run.placed[m]).0, run.placed[m].1),
                )
        }),
    decreases k,
{
    if k > 0 {
        lemma_lamps_on_free_cells((k - 1) as nat, gx, start, q, occ_start, base, args);
        let prev = lamp_run((k - 1) as nat, gx, start, q, occ_start, base, args);
        let run = lamp_run(k, gx, start, q, occ_start, base, args);
        assert forall|m: int| 0 <= m < run.placed.len() implies cell_free(
            occ_start,
            q,
            lamp_pos(start, (#[trigger] run.placed[m]).0, run.placed[m].1),
        ) by {
            if m < prev.placed.len() {
                assert(run.placed[m] == prev.placed[m]);
            }
        }
    }
}

/// `ents` are the lamps of the cells in `placed`, in order.
pub open spec fn lamps_built(
    ents: Seq<Entity>,
    placed: Seq<(int, int)>,
    base: int,
    gx: int,
    start: Position,
    args: BlueprintArgs,
    signals: Seq<Signal>,
    frame: Option<RgbaFrame>,
) -> bool {
    &&& ents.len() == placed.len()
    &&& forall|m: int|
        0 <= m < placed.len() ==> is_lamp(
            #[trigger] ents[m],
            base + placed[m].0 * gx + placed[m].1,
            lamp_pos(start, placed[m].0, placed[m].1),
            args,
            signals,
            placed[m].0 * gx + placed[m].1,
            frame,
            placed[m].1,
            placed[m].0,
        )
}

/// Every cell that gets a lamp can be given one: it has a signal, or with
/// fixed colours, a pixel of the frame.
pub open spec fn lamps_supplied(
    signals: Seq<Signal>,
    gx: int,
    gy: int,
    start: Position,
    q: Option<crate::blueprint::models::Quality>,
    occ_start: Position,
    args: BlueprintArgs,
    frame: Option<RgbaFrame>,
) -> bool {
    forall|r: int, c: int|
        0 <= r < gy && 0 <= c < gx && #[trigger] cell_free(occ_start, q, lamp_pos(start, r, c))
            ==> if is_static_colors(args.mode) {
            frame matches Some(f) && f.wf() && c < f.width && r < f.height
        } else {
            r * gx + c < signals.len()
        }
}

/// Enough signals (or a large enough frame) for a `gx` by `gy` grid.
pub proof fn lemma_lamps_supplied(
    signals: Seq<Signal>,
    gx: int,
    gy: int,
    start: Position,
    q: Option<crate::blueprint::models::Quality>,
    occ_start: Position,
    args: BlueprintArgs,
    frame: Option<RgbaFrame>,
)
    requires
        0 <= gx,
        0 <= gy,
        !is_static_colors(args.mode) ==> gx * gy <= signals.len(),
        is_static_colors(args.mode) ==> (frame matches Some(f) && f.wf() && gx <= f.width && gy
            <= f.height),
    ensures
        lamps_supplied(signals, gx, gy, start, q, occ_start, args, frame),
{
    assert forall|r: int, c: int|
        0 <= r < gy && 0 <= c < gx && #[trigger] cell_free(occ_start, q, lamp_pos(start, r, c))
            implies if is_static_colors(args.mode) {
        frame matches Some(f) && f.wf() && c < f.width && r < f.height
    } else {
        r * gx + c < signals.len()
    } by {
        lemma_cell_index(r, c, gx, gy);
    }
}

proof fn lemma_cell_index(r: int, c: int, gx: int, gy: int)
    requires
        0 <= r < gy,
        0 <= c < gx,
    ensures
        0 <= r * gx + c < gx * gy,
        r * gx + c + 1 <= gx * gy,
{
    assert(r * gx + c < gx * gy) by (nonlinear_arith)
        requires
            0 <= r < gy,
            0 <= c < gx,
    ;
    assert(r * gx >= 0) by (nonlinear_arith)
        requires
            0 <= r,
            0 <= c < gx,
    ;
}

/// Generates a grid of lamp entities for the blueprint.
///
/// Cells are visited row by row, each row from right to left; a cell that a
/// substation takes gets no lamp. Lamp `(r, c)` has entity number
/// `base_ent_n + r * width + c` and reads signal `r * width + c` (or shows
/// pixel `(c, r)` of the frame, for a static image without combinators).
///
/// # Returns
///
/// A tuple with lamp entities, lamp wires, the next entity number, and the
/// (top-left, top-right) lamp entities.
pub fn generate_lamps(
    signals: &[Signal],
    grid_dim: (u32, u32),
    curr_frame: Option<RgbaFrame>,
    occupied: &mut SubstationOccupied,
    base_ent_n: u32,
    start_pos: Position,
    args: &BlueprintArgs,
) -> (res: (Vec<Entity>, Vec<Wire>, u32, (Option<u32>, Option<u32>)))
    requires
        old(occupied).wf(),
        1 <= grid_dim.0 <= 0x8000_0000u32,
        1 <= grid_dim.1 <= 0x8000_0000u32,
        base_ent_n + grid_dim.0 * grid_dim.1 <= u32::MAX,
        -0x10_0000_0000_0000i64 <= start_pos.x2 <= 0x10_0000_0000_0000i64,
        -0x10_0000_0000_0000i64 <= start_pos.y2 <= 0x10_0000_0000_0000i64,
        lamps_supplied(
            signals@,
            grid_dim.0 as int,
            grid_dim.1 as int,
            start_pos,
            old(occupied).spec_quality(),
            old(occupied).spec_start(),
            *args,
            curr_frame,
        ),
    ensures
        ({
            let gx = grid_dim.0 as int;
            let run = lamp_run(
                (grid_dim.0 * grid_dim.1) as nat,
                gx,
                start_pos,
                old(occupied).spec_quality(),
                old(occupied).spec_start(),
                base_ent_n as int,
                *args,
            );
            &&& res.0@.len() == run.placed.len()
            &&& forall|i: int|
                0 <= i < run.placed.len() ==> is_lamp(
                    #[trigger] res.0@[i],
                    base_ent_n + run.placed[i].0 * gx + run.placed[i].1,
                    lamp_pos(start_pos, run.placed[i].0, run.placed[i].1),
                    *args,
                    signals@,
                    run.placed[i].0 * gx + run.placed[i].1,
                    curr_frame,
                    run.placed[i].1,
                    run.placed[i].0,
                )
            &&& res.1@ == run.st.wires
            &&& res.2 == base_ent_n + grid_dim.0 * grid_dim.1
            &&& res.3 == (row_end(run.st).top_left, run.top_right)
            &&& final(occupied).wf()
            &&& final(occupied).spec_start() == old(occupied).spec_start()
            &&& final(occupied).spec_quality() == old(occupied).spec_quality()
            &&& final(occupied).spec_requests() == after_requests(
                old(occupied).spec_requests(),
                run.requested,
                old(occupied).spec_start(),
                spec_coverage(old(occupied).spec_quality()),
            )
        }),
{
    let gx = grid_dim.0;
    let gy = grid_dim.1;
    let ghost q = occupied.spec_quality();
    let ghost occ_start = occupied.spec_start();
    let ghost reqs0 = occupied.spec_requests();
    let ghost cov = spec_coverage(q);
    let static_colors = match args.mode {
        Mode::Static { combs: false, .. } => true,
        _ => false,
    };
    let grid_only = args.mode == Mode::LampGrid;
    // Auto-rotate wires based on image rotation
    let prefer_horizontal_wires = args.prefer_horizontal_wires ^ (args.image_rotation
        == ImageRotation::Deg90 || args.image_rotation == ImageRotation::Deg270);

    let mut ents: Vec<Entity> = Vec::new();
    let mut wires: Vec<Wire> = Vec::new();
    let mut top_left_ent_n: Option<u32> = None;
    let mut top_right_ent_n: Option<u32> = None;
    let mut prev_ents_n: Vec<Option<u32>> = Vec::new();
    let mut i: u32 = 0;
    while i < gx
        invariant
            0 <= i <= gx,
            prev_ents_n@ == Seq::new(i as nat, |j: int| None::<u32>),
        decreases gx - i,
    {
        prev_ents_n.push(None);
        proof {
            assert(prev_ents_n@ =~= Seq::new((i + 1) as nat, |j: int| None::<u32>));
        }
        i += 1;
    }
    let mut prev_ent_n: Option<u32> = None;
    let mut did_connect_row = false;
    let mut was_top = false;

    let mut r: u32 = 0;
    while r < gy
        invariant
            1 <= gx <= 0x8000_0000u32,
            1 <= gy <= 0x8000_0000u32,
            base_ent_n + gx * gy <= u32::MAX,
            -0x10_0000_0000_0000i64 <= start_pos.x2 <= 0x10_0000_0000_0000i64,
            -0x10_0000_0000_0000i64 <= start_pos.y2 <= 0x10_0000_0000_0000i64,
            static_colors == is_static_colors(args.mode),
            grid_only == (args.mode == Mode::LampGrid),
            prefer_horizontal_wires == prefers_horizontal(*args),
            lamps_supplied(signals@, gx as int, gy as int, start_pos, q, occ_start, *args, curr_frame),
            occupied.wf(),
            occupied.spec_start() == occ_start,
            occupied.spec_quality() == q,
            cov == spec_coverage(q),
            0 <= r <= gy,
            ({
                let run = lamp_run((r * gx) as nat, gx as int, start_pos, q, occ_start, base_ent_n as int, *args);
                let st = row_end(run.st);
                &&& lamps_built(ents@, run.placed, base_ent_n as int, gx as int, start_pos, *args, signals@, curr_frame)
                &&& wires@ == st.wires
                &&& prev_ents_n@ == st.cols
                &&& prev_ent_n == st.prev
                &&& did_connect_row == st.did_connect
                &&& was_top == st.was_top
                &&& top_left_ent_n == st.top_left
                &&& top_right_ent_n == run.top_right
                &&& occupied.spec_requests() == after_requests(reqs0, run.requested, occ_start, cov)
                &&& st.cols.len() == gx
            }),
        decreases gy - r,
    {
        prev_ent_n = None; // Used for horizontal wires
        did_connect_row = false; // Track whether we've connected a row yet
        was_top = false;
        proof {
            assert((r * gx) as int % gx as int == 0) by (nonlinear_arith)
                requires gx >= 1, r >= 0;
        }

        let mut ci: u32 = 0;
        while ci < gx
            invariant
                1 <= gx <= 0x8000_0000u32,
                1 <= gy <= 0x8000_0000u32,
                base_ent_n + gx * gy <= u32::MAX,
                -0x10_0000_0000_0000i64 <= start_pos.x2 <= 0x10_0000_0000_0000i64,
                -0x10_0000_0000_0000i64 <= start_pos.y2 <= 0x10_0000_0000_0000i64,
                static_colors == is_static_colors(args.mode),
                grid_only == (args.mode == Mode::LampGrid),
                prefer_horizontal_wires == prefers_horizontal(*args),
                lamps_supplied(signals@, gx as int, gy as int, start_pos, q, occ_start, *args, curr_frame),
                occupied.wf(),
                occupied.spec_start() == occ_start,
                occupied.spec_quality() == q,
                cov == spec_coverage(q),
                r < gy,
                0 <= ci <= gx,
                ({
                    let k = r * gx + ci;
                    let run = lamp_run(k as nat, gx as int, start_pos, q, occ_start, base_ent_n as int, *args);
                    let st = if ci == 0 { row_reset(row_end(run.st)) } else { run.st };
                    &&& lamps_built(ents@, run.placed, base_ent_n as int, gx as int, start_pos, *args, signals@, curr_frame)
                    &&& wires@ == st.wires
                    &&& prev_ents_n@ == st.cols
                    &&& prev_ent_n == st.prev
                    &&& did_connect_row == st.did_connect
                    &&& was_top == st.was_top
                    &&& top_left_ent_n == st.top_left
                    &&& top_right_ent_n == run.top_right
                    &&& occupied.spec_requests() == after_requests(reqs0, run.requested, occ_start, cov)
                    &&& st.cols.len() == gx
                }),
            decreases gx - ci,
        {
            let c = gx - 1 - ci;
            let ghost k = (r * gx + ci) as int;
            proof {
                lemma_cell_index(r as int, c as int, gx as int, gy as int);
                assert(r * gx + ci + 1 <= gx * gy) by (nonlinear_arith)
                    requires r < gy, ci < gx;
                assert(visit_row(k, gx as int) == r && visit_col(k, gx as int) == c) by (nonlinear_arith)
                    requires k == r * gx + ci, ci < gx, gx >= 1, c == gx - 1 - ci, r >= 0;
                assert((k % gx as int == 0) == (ci == 0)) by (nonlinear_arith)
                    requires k == r * gx + ci, ci < gx, gx >= 1, r >= 0;
            }
            let ghost run_k = lamp_run(k as nat, gx as int, start_pos, q, occ_start, base_ent_n as int, *args);
            let ghost st0 = if ci == 0 { row_reset(row_end(run_k.st)) } else { run_k.st };
            let ghost next = lamp_step(run_k, k, gx as int, start_pos, q, occ_start, base_ent_n as int, *args);
            proof {
                assert(lamp_run((k + 1) as nat, gx as int, start_pos, q, occ_start, base_ent_n as int, *args) == next);
            }
            let pos = Position { x2: start_pos.x2 + 1 + 2 * (c as i64), y2: start_pos.y2 + 1 + 2 * (r as i64) };
            let free = occupied.request(pos);
            proof {
                assert(pos == lamp_pos(start_pos, r as int, c as int));
                assert(free == cell_free(occ_start, q, lamp_pos(start_pos, r as int, c as int)));
                assert(run_k.requested.push(pos).drop_last() =~= run_k.requested);
                assert(occupied.spec_requests() == after_requests(
                    reqs0,
                    run_k.requested.push(pos),
                    occ_start,
                    cov,
                ));
            }
            if free {
                let curr_ent_n = base_ent_n + r * gx + c;
                let index = (r * gx + c) as usize;
                let mut lamp = Entity::new(curr_ent_n, LAMP.to_owned(), pos).with_always_on(true);
                if top_right_ent_n.is_none() {
                    top_right_ent_n = Some(curr_ent_n); // Handle case where there's only one column
                }
                if static_colors {
                    let frame = match &curr_frame {
                        Some(f) => f,
                        None => {
                            proof { assert(false); }
                            return (ents, wires, 0, (None, None));
                        },
                    };
                    let w = frame.width;
                    let dlen = frame.data.len();
                    proof {
                        assert((r * w + c) * 4 + 3 < frame.data@.len()) by (nonlinear_arith)
                            requires r < frame.height, c < w, frame.data@.len() == w * frame.height * 4;
                        assert(r * w >= 0) by (nonlinear_arith) requires r >= 0, w >= 0;
                        assert(r * w + c <= (r * w + c) * 4 + 3);
                        assert((r as usize) * (w as usize) == r * w);
                    }
                    let px = ((r as usize) * (w as usize) + (c as usize)) * 4;
                    lamp = lamp.with_color(Color {
                        r: frame.data[px],
                        g: frame.data[px + 1],
                        b: frame.data[px + 2],
                        a: frame.data[px + 3],
                    });
                } else {
                    let signal = signals[index].clone();
                    lamp = lamp.with_control_behavior(if args.grayscale_bits > 0 {
                        ControlBehavior::GrayLamp {
                            use_colors: true,
                            color_mode: 1,
                            red_signal: signal.clone(),
                            green_signal: signal.clone(),
                            blue_signal: signal,
                        }
                    } else {
                        ControlBehavior::ColorLamp { use_colors: true, color_mode: 2, rgb_signal: signal }
                    });
                }
                if !static_colors {
                    let ci_u = c as usize;
                    let is_top = prev_ents_n[ci_u].is_none();
                    // prev_ents_n tracks the entity numbers for the rows above
                    // if it's none then we never connected the top row
                    if !grid_only && is_top {
                        if r == 0 || top_left_ent_n.is_none() {
                            if let Some(prev) = prev_ent_n {
                                wires.push([curr_ent_n, WIRE_R, prev, WIRE_R]); // horizontal timing wire
                            }
                        }
                    }
                    if is_top || prefer_horizontal_wires || was_top {
                        if let Some(prev) = prev_ent_n {
                            wires.push([curr_ent_n, WIRE_G, prev, WIRE_G]); // horizontal data wire
                        }
                    }
                    if !did_connect_row || !prefer_horizontal_wires {
                        if let Some(prev) = prev_ents_n[ci_u] {
                            wires.push([curr_ent_n, WIRE_G, prev, WIRE_G]); // vertical data wire
                            did_connect_row = true;
                        }
                    }
                    was_top = is_top;
                }
                ents.push(lamp);
                prev_ent_n = Some(curr_ent_n);
                prev_ents_n.set(c as usize, prev_ent_n);
            }
            proof {
                assert(wires@ =~= next.st.wires);
                assert(prev_ents_n@ =~= next.st.cols);
            }
            ci += 1;
        }
        proof {
            assert(r * gx + gx == (r + 1) * gx) by (nonlinear_arith);
        }
        if top_left_ent_n.is_none() {
            top_left_ent_n = prev_ent_n;
        }
        r += 1;
    }
    proof {
        assert((gy - 1) * gx + (gx - 1) + 1 == gx * gy) by (nonlinear_arith)
            requires gy >= 1, gx >= 1;
        assert((gy - 1) * gx <= gx * gy) by (nonlinear_arith)
            requires gy >= 1, gx >= 1;
    }
    let next_ent_n = base_ent_n + (gy - 1) * gx + (gx - 1) + 1;
    proof {
        assert(gy * gx == gx * gy) by (nonlinear_arith);
    }
    (ents, wires, next_ent_n, (top_left_ent_n, top_right_ent_n))
}

} // verus!
