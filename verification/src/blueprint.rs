//! Blueprint generation. This module holds the column layout —
//! substations on a fixed grid, combinators in columns, lamps that skip the
//! substations' cells — and the submodules hold the streaming generator.
pub mod constants;
pub mod models;
pub mod util;
pub mod signals;
pub mod sort;
pub mod text;
pub mod timer;
pub mod substation;
pub mod lamp;
pub mod combinator;
pub mod blueprint;

use crate::blueprint::combinator::{
    gray_mask, gray_scale, helper_wires, is_delay_settings, is_helper, is_memory_settings,
    is_shift_settings, n_helpers, DELAY_DESC, MASK_DESC, MEMORY_DESC, SHIFT_DESC,
};
use crate::blueprint::constants::{
    ARI_CB, COMP_AND, COMP_NE, DEC_CB, DIR_L, DIR_R, OP_AND, OP_MUL, OP_RSHIFT, SIG_EACH, SIG_F,
    SIG_T, WIRE_C, WIRE_G, WIRE_OUT_G, WIRE_OUT_R, WIRE_R,
};
use crate::blueprint::models::{
    ArithmeticConditions, CombinatorOutput, Condition, DeciderConditions, NetworkFilters,
};
use crate::blueprint::timer::{arithmetic_virtual, is_arithmetic_virtual};
use crate::blueprint::blueprint::{
    chunk_fits, chunk_fits_exec, frame_channels, group_patch_error, group_image, group_width, lemma_patch_ready_kept,
    lemma_windows_fit, patch_group, patch_ready, patch_spec, patch_state_view, windows_written, WindowSpec,
    frame_written, group_windows, is_text, lemma_frame_written_step, lemma_windows_written_shift,
    sort_by_entity_number, timer_with_stop, GroupPatchState, PatchConfig, PatchSpecState, Piece,
    ENCODE_CHUNK_SIZE,
};
use crate::blueprint::models::{Blueprint, BlueprintInner, Icon};
use crate::blueprint::signals::{entries_fit, SignalEntry};
use crate::blueprint::util::{
    crop, entity_inverted, invert_wires, packable_frames, packed_gray, rasters_view, spec_inverted_wire, spec_rgb_outputs,
    valid_gray_bits, BlueprintError, Raster,
};
use crate::blueprint::lamp::is_lamp_behavior;
use crate::blueprint::models::{ControlBehavior, Entity, Position, Quality, Signal, Wire};
use crate::blueprint::timer::{is_timer, timer_entities, timer_wires};
use crate::constants::{BLUEPRINT, BLUEPRINT_VERSION, DECIDER_COMB, LAMP, QUAL_EPIC, QUAL_LEGENDARY, QUAL_NONE, QUAL_NORMAL, QUAL_RARE, QUAL_UNCOMMON, SUBSTATION};
use vstd::prelude::*;

verus! {

// ---------------------------------------------------------------------------
// Timer
// ---------------------------------------------------------------------------

/// What the counter of the column-layout timer says of itself.
pub const COUNTER_DESC: &'static str = "[virtual-signal=signal-T] is our timer that ticks up 60 times per second up to the max ticks for the entire gif. When it reaches the max, it will start over, resetting the gif. This timer is used to know which frames to render.";

/// What the shift of the column-layout timer says of itself.
pub const TIMER_SHIFT_DESC: &'static str = "Calculates the bit shift necessary for the frame we should be rendering.";

/// The timer: a counter of ticks up to `stop`, and with grayscale the
/// combinators that turn the tick into a bit shift.
pub fn generate_timer(stop: u32, gray_bits: u32, ticks_per_frame: u32, frames_per_comb: u32) -> (r: (
    Vec<Entity>,
    Vec<Wire>,
))
    requires
        gray_bits > 0 ==> ticks_per_frame * frames_per_comb <= u32::MAX,
    ensures
        is_timer(r.0@, r.1@, stop, gray_bits, ticks_per_frame, frames_per_comb),
        r.0@[1].player_description matches Some(d) && d@ == COUNTER_DESC@,
        gray_bits > 0 ==> (r.0@[5].player_description matches Some(d) && d@ == TIMER_SHIFT_DESC@),
{
    timer_entities(stop, gray_bits, ticks_per_frame, frames_per_comb, COUNTER_DESC, TIMER_SHIFT_DESC)
}

// ---------------------------------------------------------------------------
// Substations on a fixed grid
// ---------------------------------------------------------------------------

/// Spacing of substations in tiles for a quality name.
pub open spec fn grid_coverage(q: Seq<char>) -> int {
    if q == QUAL_UNCOMMON@ {
        20
    } else if q == QUAL_RARE@ {
        22
    } else if q == QUAL_EPIC@ {
        24
    } else if q == QUAL_LEGENDARY@ {
        28
    } else {
        18
    }
}

/// Tiles per side that a substation of a quality name supplies with power:
/// 18 for normal, 20 uncommon, 22 rare, 24 epic, 28 legendary; a name the
/// game does not know gets the normal area.
pub open spec fn supply_area(q: Seq<char>) -> int {
    if q == "legendary"@ {
        28
    } else if q == "epic"@ {
        24
    } else if q == "rare"@ {
        22
    } else if q == "uncommon"@ {
        20
    } else {
        18
    }
}

/// The place of the `j`-th substation of a line from `start` every `cov`
/// tiles.
pub open spec fn grid_line(start: int, j: int, cov: int) -> int {
    start + j * cov
}

/// Tile `t` lies within the `s`-tile supply area of a substation at `c`.
pub open spec fn in_supply(c: int, s: int, t: int) -> bool {
    c - s / 2 <= t <= c + s / 2 - 1
}

/// Along one side, a line of substations from `-1` every `cov` tiles,
/// `ceil_pos(n - (cov - 2) / 2, cov) + 1` of them, reaches every tile
/// `0..n` with an area of `s` tiles centred on it, where the spacing is
/// even and no wider than the area.
proof fn lemma_line_covered(cov: int, s: int, n: int, x: int)
    requires
        2 <= cov <= s,
        cov % 2 == 0,
        s % 2 == 0,
        0 <= x < n,
    ensures
        exists|j: int| 0 <= j < ceil_pos(n - (cov - 2) / 2, cov) + 1 && in_supply(#[trigger] grid_line(-1, j, cov), s, x),
{
    let h = cov / 2;
    let j = (x + 1 + h) / cov;
    vstd::arithmetic::div_mod::lemma_fundamental_div_mod(x + 1 + h, cov);
    let r = (x + 1 + h) % cov;
    assert(x + 1 + h == cov * j + r);
    assert(j >= 0) by (nonlinear_arith)
        requires
            x + 1 + h == cov * j + r,
            0 <= r < cov,
            x >= 0,
            h >= 1,
    ;
    assert(j * cov == cov * j) by (nonlinear_arith);
    if n - (cov - 2) / 2 > 0 {
        assert((n + h) / cov == (n - (cov - 2) / 2 + cov - 1) / cov);
        vstd::arithmetic::div_mod::lemma_div_is_ordered(x + 1 + h, n + h, cov);
    } else {
        assert(j == 0) by (nonlinear_arith)
            requires
                x + 1 + h == cov * j + r,
                0 <= r < cov,
                x + 1 + h < cov,
                j >= 0,
        ;
    }
    assert(in_supply(grid_line(-1, j, cov), s, x));
}

/// Every lamp of a `w` by `h` grid lies within the supply area of a
/// substation of the grid: some column of substations reaches its column
/// and some row reaches its row.
pub proof fn lemma_substations_cover_lamps(q: Seq<char>, w: int, h: int, n_frames: int, x: int, y: int)
    requires
        0 <= x < w,
        0 <= y < h,
        n_frames >= 0,
    ensures
        ({
            let (gw, gh, x0, y0) = grid_layout(q, w, h, n_frames);
            let cov = grid_coverage(q);
            let s = supply_area(q);
            &&& exists|j: int| 0 <= j < gw && in_supply(#[trigger] grid_line(x0, j, cov), s, x)
            &&& exists|i: int| 0 <= i < gh && in_supply(#[trigger] grid_line(y0, i, cov), s, y)
        }),
{
    let cov = grid_coverage(q);
    let s = supply_area(q);
    assert(2 <= cov <= s && cov % 2 == 0 && s % 2 == 0);
    let nfc = frame_rows(n_frames, cov);
    assert(nfc >= 0);
    lemma_line_covered(cov, s, w, x);
    lemma_line_covered(cov, s, h, y);
    let jx = choose|j: int| 0 <= j < ceil_pos(w - (cov - 2) / 2, cov) + 1 && in_supply(#[trigger] grid_line(-1, j, cov), s, x);
    assert(grid_line(-1, jx, cov) == grid_line(-1, jx, cov));
    let jy = choose|j: int| 0 <= j < ceil_pos(h - (cov - 2) / 2, cov) + 1 && in_supply(#[trigger] grid_line(-1, j, cov), s, y);
    let i = nfc + jy;
    assert(grid_line(-1 - nfc * cov, i, cov) == grid_line(-1, jy, cov)) by (nonlinear_arith)
        requires
            i == nfc + jy,
    ;
    let (gw, gh, x0, y0) = grid_layout(q, w, h, n_frames);
    assert(x0 == -1 && y0 == -1 - nfc * cov);
    assert(gw == ceil_pos(w - (cov - 2) / 2, cov) + 1);
    assert(gh == ceil_pos(h - (cov - 2) / 2, cov) + 1 + nfc);
    assert(0 <= jx < gw && in_supply(grid_line(x0, jx, cov), s, x));
    assert(0 <= i < gh && in_supply(grid_line(y0, i, cov), s, y));
}

/// The quality written on substations of a quality name: none for normal;
/// names the game does not know become `Unknown`.
pub open spec fn grid_quality(q: Seq<char>) -> Option<Quality> {
    if q == QUAL_NORMAL@ {
        None
    } else if q == QUAL_UNCOMMON@ {
        Some(Quality::Uncommon)
    } else if q == QUAL_RARE@ {
        Some(Quality::Rare)
    } else if q == QUAL_EPIC@ {
        Some(Quality::Epic)
    } else if q == QUAL_LEGENDARY@ {
        Some(Quality::Legendary)
    } else {
        Some(Quality::Unknown)
    }
}

/// `a / d` rounded up, and 0 for `a <= 0`.
pub open spec fn ceil_pos(a: int, d: int) -> int {
    if a <= 0 {
        0
    } else {
        (a + d - 1) / d
    }
}

/// Rows of substations above the lamps that cover the combinators of
/// `n_frames` rows: the fewest `k` with `n_frames - h <= k * (cov - 2)`.
pub open spec fn frame_rows(n_frames: int, cov: int) -> int {
    ceil_pos(n_frames - (cov - 2) / 2, cov - 2)
}

/// The layout of the substation grid: columns, rows, and the corner.
pub open spec fn grid_layout(q: Seq<char>, w: int, h: int, n_frames: int) -> (int, int, int, int) {
    let cov = grid_coverage(q);
    let hc = (cov - 2) / 2;
    let nfc = frame_rows(n_frames, cov);
    let width = ceil_pos(w - hc, cov) + 1;
    let height = ceil_pos(h - hc, cov) + 1 + nfc;
    (width, height, -1, -1 - nfc * cov)
}

/// The substation at column `j`, row `i` of the grid: where it is and what
/// it is.
pub open spec fn is_grid_substation(e: Entity, n: int, x: int, y: int, q: Seq<char>) -> bool {
    &&& e.entity_number == n
    &&& e.name@ == SUBSTATION@
    &&& e.position == (Position { x2: (2 * x) as i64, y2: (2 * y) as i64 })
    &&& e.direction is None
    &&& e.control_behavior is None
    &&& e.player_description is None
    &&& e.quality == grid_quality(q)
    &&& e.always_on is None
    &&& e.custom_tag is None
    &&& e.color is None
}

/// The wires of the first `k` substations of a grid `width` wide, numbered
/// from `base`: each joins the one above it and the one to its left.
pub open spec fn grid_wires(k: int, width: int, base: int) -> Seq<Wire>
    decreases k,
{
    if k <= 0 {
        Seq::empty()
    } else {
        let me = base + k - 1;
        let i = (k - 1) / width;
        let j = (k - 1) % width;
        grid_wires(k - 1, width, base) + (if i > 0 {
            seq![[me as u32, WIRE_C, (me - width) as u32, WIRE_C]]
        } else {
            Seq::empty()
        }) + (if j > 0 {
            seq![[me as u32, WIRE_C, (me - 1) as u32, WIRE_C]]
        } else {
            Seq::empty()
        })
    }
}

/// The four tiles around the substations of the first `k` places.
pub open spec fn grid_cells(k: int, width: int, x0: int, y0: int, cov: int) -> Seq<(i32, i32)>
    decreases k,
{
    if k <= 0 {
        Seq::empty()
    } else {
        let x = x0 + ((k - 1) % width) * cov;
        let y = y0 + ((k - 1) / width) * cov;
        grid_cells(k - 1, width, x0, y0, cov) + seq![
            ((x - 1) as i32, (y - 1) as i32),
            ((x - 1) as i32, y as i32),
            (x as i32, (y - 1) as i32),
            (x as i32, y as i32),
        ]
    }
}

/// Sizes that keep the grid's numbers small, and entity numbers that fit.
pub open spec fn grid_fits(q: Seq<char>, w: u32, h: u32, n_frames: u32, ent_0: u32) -> bool {
    let (width, height, x0, y0) = grid_layout(q, w as int, h as int, n_frames as int);
    &&& q != QUAL_NONE@ ==> w <= 0x100_0000 && h <= 0x100_0000 && n_frames <= 0x100_0000
    &&& q != QUAL_NONE@ ==> ent_0 + width * height <= u32::MAX
}

/// A quality's name, compared.
pub(crate) fn same_text(a: &String, b: &str) -> (r: bool)
    ensures
        r == (a@ == b@),
{
    let t = b.to_owned();
    *a == t
}

#[verifier::rlimit(40)]
/// Substations on a fixed grid over the lamps and, above them, over the
/// combinators of `n_frames` rows; none for the quality "none". Returns the
/// substations, their wires, the tiles they stand on, and the next entity
/// number.
pub fn generate_substations(
    substation_quality: &String,
    lamp_width: u32,
    lamp_height: u32,
    n_frames: u32,
    ent_0_i: u32,
) -> (r: (Vec<Entity>, Vec<Wire>, Vec<(i32, i32)>, u32))
    requires
        grid_fits(substation_quality@, lamp_width, lamp_height, n_frames, ent_0_i),
    ensures
        substation_quality@ == QUAL_NONE@ ==> r.0@.len() == 0 && r.1@.len() == 0 && r.2@.len() == 0
            && r.3 == ent_0_i,
        substation_quality@ != QUAL_NONE@ ==> ({
            let q = substation_quality@;
            let cov = grid_coverage(q);
            let (width, height, x0, y0) = grid_layout(
                q,
                lamp_width as int,
                lamp_height as int,
                n_frames as int,
            );
            &&& r.0@.len() == width * height
            &&& forall|k: int|
                0 <= k < width * height ==> is_grid_substation(
                    #[trigger] r.0@[k],
                    ent_0_i + k,
                    x0 + (k % width) * cov,
                    y0 + (k / width) * cov,
                    q,
                )
            &&& r.1@ == grid_wires(width * height, width, ent_0_i as int)
            &&& r.2@ == grid_cells(width * height, width, x0, y0, cov)
            &&& r.3 == ent_0_i + width * height
        }),
{
    let mut subs: Vec<Entity> = Vec::new();
    let mut wires: Vec<Wire> = Vec::new();
    let mut occupied: Vec<(i32, i32)> = Vec::new();
    if same_text(substation_quality, QUAL_NONE) {
        return (subs, wires, occupied, ent_0_i);
    }
    let ghost q = substation_quality@;
    let coverage: i64 = if same_text(substation_quality, QUAL_UNCOMMON) {
        20
    } else if same_text(substation_quality, QUAL_RARE) {
        22
    } else if same_text(substation_quality, QUAL_EPIC) {
        24
    } else if same_text(substation_quality, QUAL_LEGENDARY) {
        28
    } else {
        18
    };
    let quality: Option<Quality> = if same_text(substation_quality, QUAL_NORMAL) {
        None
    } else if same_text(substation_quality, QUAL_UNCOMMON) {
        Some(Quality::Uncommon)
    } else if same_text(substation_quality, QUAL_RARE) {
        Some(Quality::Rare)
    } else if same_text(substation_quality, QUAL_EPIC) {
        Some(Quality::Epic)
    } else if same_text(substation_quality, QUAL_LEGENDARY) {
        Some(Quality::Legendary)
    } else {
        Some(Quality::Unknown)
    };
    let half_coverage = (coverage - 2) / 2;
    let frames_left = n_frames as i64 - half_coverage;
    let mut n_frame_coverage: i64 = if frames_left <= 0 {
        0
    } else {
        (frames_left + coverage - 1) / coverage
    };
    proof {
        lemma_ceil_pos_bounds(frames_left as int, coverage as int, coverage - 2);
        assert(n_frame_coverage * coverage <= 0x20_0000 * 28) by (nonlinear_arith)
            requires
                0 <= n_frame_coverage <= 0x20_0000,
                coverage <= 28,
        ;
    }
    // One more row of substations while the combinators reach past them.
    while frames_left + n_frame_coverage * 2 > n_frame_coverage * coverage
        invariant
            18 <= coverage <= 28,
            frames_left <= 0x100_0000,
            0 <= n_frame_coverage <= 0x20_0000,
            n_frame_coverage * coverage <= 0x20_0000 * 28,
            frame_rows(n_frames as int, coverage as int) <= 0x20_0000,
            n_frame_coverage <= frame_rows(n_frames as int, coverage as int),
            frames_left == n_frames - (coverage - 2) / 2,
        decreases frame_rows(n_frames as int, coverage as int) - n_frame_coverage,
    {
        proof {
            assert(frames_left > n_frame_coverage * (coverage - 2)) by (nonlinear_arith)
                requires
                    frames_left + n_frame_coverage * 2 > n_frame_coverage * coverage,
            ;
            lemma_frame_rows(frames_left as int, coverage - 2, n_frame_coverage as int);
        }
        n_frame_coverage += 1;
        proof {
            assert(n_frame_coverage * coverage <= 0x20_0000 * 28) by (nonlinear_arith)
                requires
                    0 <= n_frame_coverage <= 0x20_0000,
                    coverage <= 28,
            ;
        }
    }
    proof {
        assert(frames_left <= n_frame_coverage * (coverage - 2)) by (nonlinear_arith)
            requires
                !(frames_left + n_frame_coverage * 2 > n_frame_coverage * coverage),
        ;
        lemma_frame_rows_least(frames_left as int, coverage - 2, n_frame_coverage as int);
        assert(n_frame_coverage == frame_rows(n_frames as int, coverage as int));
    }
    proof {
        assert(coverage == grid_coverage(q));
        assert(half_coverage == (coverage - 2) / 2);
    }
    let w_left = lamp_width as i64 - half_coverage;
    let h_left = lamp_height as i64 - half_coverage;
    let n_subs_width: i64 = (if w_left <= 0 {
        0
    } else {
        (w_left + coverage - 1) / coverage
    }) + 1;
    let n_subs_height: i64 = (if h_left <= 0 {
        0
    } else {
        (h_left + coverage - 1) / coverage
    }) + 1 + n_frame_coverage;
    let start_x: i64 = -1;
    let start_y: i64 = -1 - n_frame_coverage * coverage;
    proof {
        lemma_ceil_pos_bounds(w_left as int, coverage as int, coverage as int);
        lemma_ceil_pos_bounds(h_left as int, coverage as int, coverage as int);
        assert(n_subs_width == ceil_pos(w_left as int, coverage as int) + 1);
        assert(n_subs_height == ceil_pos(h_left as int, coverage as int) + 1 + n_frame_coverage);
        assert(n_subs_width <= 0x20_0000);
        assert(n_subs_height <= 0x40_0000);
        assert((n_subs_width as int, n_subs_height as int, start_x as int, start_y as int) == grid_layout(
            q,
            lamp_width as int,
            lamp_height as int,
            n_frames as int,
        ));
        assert(ent_0_i + n_subs_width * n_subs_height <= u32::MAX);
        assert(n_frame_coverage * coverage <= 0x20_0000 * 28) by (nonlinear_arith)
            requires
                0 <= n_frame_coverage <= 0x20_0000,
                coverage <= 28,
        ;
    }
    let mut curr_ent_i: u32 = ent_0_i;
    let mut i: i64 = 0;
    let ghost width = n_subs_width as int;
    while i < n_subs_height
        invariant
            0 <= i <= n_subs_height,
            1 <= n_subs_width <= 0x20_0000,
            1 <= n_subs_height <= 0x40_0000,
            width == n_subs_width,
            18 <= coverage <= 28,
            -1 - 0x20_0000 * 28 <= start_y <= -1,
            start_x == -1,
            ent_0_i + n_subs_width * n_subs_height <= u32::MAX,
            curr_ent_i == ent_0_i + i * width,
            subs@.len() == i * width,
            forall|k: int|
                0 <= k < i * width ==> is_grid_substation(
                    #[trigger] subs@[k],
                    ent_0_i + k,
                    start_x + (k % width) * coverage,
                    start_y + (k / width) * coverage,
                    q,
                ),
            wires@ == grid_wires(i * width, width, ent_0_i as int),
            occupied@ == grid_cells(i * width, width, start_x as int, start_y as int, coverage as int),
            quality == grid_quality(q),
        decreases n_subs_height - i,
    {
        let mut j: i64 = 0;
        while j < n_subs_width
            invariant
                0 <= i < n_subs_height,
                0 <= j <= n_subs_width,
                1 <= n_subs_width <= 0x20_0000,
                1 <= n_subs_height <= 0x40_0000,
                width == n_subs_width,
                18 <= coverage <= 28,
                -1 - 0x20_0000 * 28 <= start_y <= -1,
                start_x == -1,
                ent_0_i + n_subs_width * n_subs_height <= u32::MAX,
                curr_ent_i == ent_0_i + i * width + j,
                subs@.len() == i * width + j,
                forall|k: int|
                    0 <= k < i * width + j ==> is_grid_substation(
                        #[trigger] subs@[k],
                        ent_0_i + k,
                        start_x + (k % width) * coverage,
                        start_y + (k / width) * coverage,
                        q,
                    ),
                wires@ == grid_wires(i * width + j, width, ent_0_i as int),
                occupied@ == grid_cells(i * width + j, width, start_x as int, start_y as int, coverage as int),
                quality == grid_quality(q),
            decreases n_subs_width - j,
        {
            let ghost k = i * width + j;
            proof {
                vstd::arithmetic::div_mod::lemma_fundamental_div_mod_converse(k, width, i as int, j as int);
                assert(j * coverage <= 0x20_0000 * 28) by (nonlinear_arith)
                    requires
                        0 <= j <= 0x20_0000,
                        coverage <= 28,
                ;
                assert(i * coverage <= 0x40_0000 * 28) by (nonlinear_arith)
                    requires
                        0 <= i <= 0x40_0000,
                        coverage <= 28,
                ;
                assert(i * width + j < n_subs_width * n_subs_height) by (nonlinear_arith)
                    requires
                        0 <= i < n_subs_height,
                        0 <= j < n_subs_width,
                        width == n_subs_width,
                ;
                assert(i * width + j >= j) by (nonlinear_arith)
                    requires
                        0 <= i,
                        0 <= j,
                        width >= 0,
                ;
                if i > 0 {
                    assert(i * width + j >= width) by (nonlinear_arith)
                        requires
                            1 <= i,
                            0 <= j,
                            width >= 0,
                    ;
                }
            }
            let x = start_x + j * coverage;
            let y = start_y + i * coverage;
            let mut entity = Entity::new(curr_ent_i, SUBSTATION.to_owned(), Position { x2: 2 * x, y2: 2 * y });
            entity.quality = quality;
            subs.push(entity);
            occupied.push(((x - 1) as i32, (y - 1) as i32));
            occupied.push(((x - 1) as i32, y as i32));
            occupied.push((x as i32, (y - 1) as i32));
            occupied.push((x as i32, y as i32));
            if i > 0 {
                wires.push([curr_ent_i, WIRE_C, curr_ent_i - (n_subs_width as u32), WIRE_C]);
            }
            if j > 0 {
                wires.push([curr_ent_i, WIRE_C, curr_ent_i - 1, WIRE_C]);
            }
            proof {
                assert(grid_wires(k + 1, width, ent_0_i as int) == grid_wires(k, width, ent_0_i as int)
                    + (if i > 0 {
                    seq![[(ent_0_i + k) as u32, WIRE_C, (ent_0_i + k - width) as u32, WIRE_C]]
                } else {
                    Seq::empty()
                }) + (if j > 0 {
                    seq![[(ent_0_i + k) as u32, WIRE_C, (ent_0_i + k - 1) as u32, WIRE_C]]
                } else {
                    Seq::empty()
                }));
                assert forall|kk: int| 0 <= kk < k + 1 implies is_grid_substation(
                    #[trigger] subs@[kk],
                    ent_0_i + kk,
                    start_x + (kk % width) * coverage,
                    start_y + (kk / width) * coverage,
                    q,
                ) by {
                    if kk == k {
                        assert(kk % width == j && kk / width == i);
                    }
                }
            }
            curr_ent_i += 1;
            j += 1;
        }
        proof {
            assert(i * width + width == (i + 1) * width) by (nonlinear_arith);
        }
        i += 1;
    }
    proof {
        assert(n_subs_height * width == width * n_subs_height) by (nonlinear_arith);
    }
    (subs, wires, occupied, curr_ent_i)
}

/// `ceil_pos(a, d)` is at most `ceil_pos(a, e)` for a smaller `e`, and
/// small for small `a`.
proof fn lemma_ceil_pos_bounds(a: int, d: int, e: int)
    requires
        16 <= e <= d,
        a <= 0x100_0000,
    ensures
        ceil_pos(a, d) <= ceil_pos(a, e),
        ceil_pos(a, e) <= 0x10_0000,
        0 <= ceil_pos(a, d),
{
    if a > 0 {
        assert((a + d - 1) / d <= (a + e - 1) / e) by (nonlinear_arith)
            requires
                16 <= e <= d,
                a > 0,
        ;
        assert((a + e - 1) / e <= 0x10_0000) by (nonlinear_arith)
            requires
                16 <= e,
                0 < a <= 0x100_0000,
        ;
        assert((a + d - 1) / d >= 0) by (nonlinear_arith)
            requires
                16 <= d,
                a > 0,
        ;
    }
}

/// Each step below `frame_rows` leaves combinators uncovered.
proof fn lemma_frame_rows(a: int, d: int, k: int)
    requires
        16 <= d,
        a > k * d,
        0 <= k,
    ensures
        k < ceil_pos(a, d),
{
    assert(a > 0) by (nonlinear_arith)
        requires
            a > k * d,
            k >= 0,
            d >= 0,
    ;
    assert(k < (a + d - 1) / d) by (nonlinear_arith)
        requires
            a > k * d,
            d >= 16,
            k >= 0,
    ;
}

/// The first count of rows that covers the combinators is `frame_rows`.
proof fn lemma_frame_rows_least(a: int, d: int, k: int)
    requires
        16 <= d,
        a <= k * d,
        0 <= k <= ceil_pos(a, d),
    ensures
        k == ceil_pos(a, d),
{
    if a > 0 {
        assert(k >= (a + d - 1) / d) by (nonlinear_arith)
            requires
                a <= k * d,
                d >= 16,
                a > 0,
        ;
    }
}

// ---------------------------------------------------------------------------
// Lamps around the substations
// ---------------------------------------------------------------------------

/// Progress of laying lamps: the wires so far, the lamp before in the row,
/// the last lamp of each column, the top right lamp, the cells that got a
/// lamp (row, column), and the next entity number.
pub struct GridLampState {
    pub wires: Seq<Wire>,
    pub prev: Option<u32>,
    pub cols: Seq<Option<u32>>,
    pub top_right: u32,
    pub placed: Seq<(int, int)>,
    pub curr: int,
}

/// The lamps of a `w` by `h` grid whose corner is at `(sx, sy)`, numbered
/// from `base`, before any cell is visited.
pub open spec fn grid_lamps_start(w: int, base: int) -> GridLampState {
    GridLampState {
        wires: Seq::empty(),
        prev: None,
        cols: Seq::new(w as nat, |i: int| None::<u32>),
        top_right: 0,
        placed: Seq::empty(),
        curr: base,
    }
}

/// The state after visiting the first `k` cells, row by row: cells a
/// substation stands on are skipped; the lamps of the top row join the one
/// before on both wires; below it, lamps join the lamp above them (with
/// horizontal wiring, only in the last column) and, with horizontal wiring,
/// the lamp before them in the row on green.
pub open spec fn grid_lamps(
    k: int,
    w: int,
    sx: int,
    sy: int,
    occupied: Seq<(i32, i32)>,
    horizontal: bool,
    base: int,
) -> GridLampState
    decreases k,
{
    if k <= 0 {
        grid_lamps_start(w, base)
    } else {
        let st0 = grid_lamps(k - 1, w, sx, sy, occupied, horizontal, base);
        let r = (k - 1) / w;
        let c = (k - 1) % w;
        let st = if c == 0 {
            GridLampState { prev: None, ..st0 }
        } else {
            st0
        };
        let x = sx + c;
        let y = sy + r;
        if occupied.contains((x as i32, y as i32)) {
            st
        } else {
            let n = st.curr;
            let w1 = if r == 0 && c > 0 {
                seq![
                    [n as u32, WIRE_G, (n - 1) as u32, WIRE_G],
                    [n as u32, WIRE_R, (n - 1) as u32, WIRE_R],
                ]
            } else if horizontal {
                match st.prev {
                    Some(p) => seq![[n as u32, WIRE_G, p, WIRE_G]],
                    None => Seq::empty(),
                }
            } else {
                Seq::empty()
            };
            let w2 = if r > 0 && (!horizontal || c + 1 == w) {
                match st.cols[c] {
                    Some(pe) => seq![[n as u32, WIRE_G, pe, WIRE_G]],
                    None => Seq::empty(),
                }
            } else {
                Seq::empty()
            };
            GridLampState {
                wires: st.wires + w1 + w2,
                prev: if r == 0 && c > 0 {
                    st.prev
                } else if horizontal {
                    Some(n as u32)
                } else {
                    st.prev
                },
                cols: st.cols.update(c, Some(n as u32)),
                top_right: if r == 0 {
                    n as u32
                } else {
                    st.top_right
                },
                placed: st.placed.push((r, c)),
                curr: n + 1,
            }
        }
    }
}

/// Lamps never stand on a tile a substation takes: every lamp laid in the
/// first `k` cells of a `w`-wide grid is in a free cell of the grid, the
/// cells come in reading order (so no cell gets two lamps), and the lamps
/// are numbered consecutively from `base`.
pub proof fn lemma_grid_lamps_avoid_occupied(
    k: int,
    w: int,
    sx: int,
    sy: int,
    occupied: Seq<(i32, i32)>,
    horizontal: bool,
    base: int,
)
    requires
        w >= 1,
    ensures
        ({
            let st = grid_lamps(k, w, sx, sy, occupied, horizontal, base);
            &&& st.curr == base + st.placed.len()
            &&& forall|j: int|
                0 <= j < st.placed.len() ==> {
                    let (r, c) = #[trigger] st.placed[j];
                    &&& 0 <= c < w
                    &&& 0 <= r
                    &&& r * w + c < k
                    &&& !occupied.contains(((sx + c) as i32, (sy + r) as i32))
                }
            &&& forall|i: int, j: int|
                0 <= i < j < st.placed.len() ==> st.placed[i].0 * w + st.placed[i].1
                    < st.placed[j].0 * w + st.placed[j].1
        }),
    decreases k,
{
    if k > 0 {
        lemma_grid_lamps_avoid_occupied(k - 1, w, sx, sy, occupied, horizontal, base);
        let r = (k - 1) / w;
        let c = (k - 1) % w;
        assert(r * w + c == k - 1) by (nonlinear_arith)
            requires
                w >= 1,
                r == (k - 1) / w,
                c == (k - 1) % w,
        ;
        assert(0 <= c < w) by (nonlinear_arith)
            requires
                w >= 1,
                c == (k - 1) % w,
        ;
        assert(r >= 0) by (nonlinear_arith)
            requires
                w >= 1,
                k >= 1,
                r == (k - 1) / w,
        ;
    }
}

/// A lamp of the grid: numbered `n`, at tile `(x, y)`, driven by `signal`.
pub open spec fn is_grid_lamp(e: Entity, n: int, x: int, y: int, signal: Signal, gray: bool) -> bool {
    &&& e.entity_number == n
    &&& e.name@ == LAMP@
    &&& e.position == (Position { x2: (2 * x) as i64, y2: (2 * y) as i64 })
    &&& e.direction is None
    &&& e.player_description is None
    &&& e.quality is None
    &&& e.always_on == Some(true)
    &&& e.custom_tag is None
    &&& e.color is None
    &&& e.control_behavior matches Some(cb) && is_lamp_behavior(cb, signal, gray)
}

/// Whether the tile `(x, y)` is among `cells`.
fn cell_taken(cells: &Vec<(i32, i32)>, x: i32, y: i32) -> (r: bool)
    ensures
        r == cells@.contains((x, y)),
{
    let mut i: usize = 0;
    while i < cells.len()
        invariant
            0 <= i <= cells@.len(),
            forall|j: int| 0 <= j < i ==> cells@[j] != (x, y),
        decreases cells@.len() - i,
    {
        if cells[i].0 == x && cells[i].1 == y {
            proof {
                assert(cells@[i as int] == (x, y));
            }
            return true;
        }
        i += 1;
    }
    false
}

/// The lamps laid so far, as the loop keeps them.
struct LampLayer {
    ents: Vec<Entity>,
    wires: Vec<Wire>,
    curr: u32,
    top_right: u32,
    prev: Option<u32>,
    cols: Vec<Option<u32>>,
}

/// Every lamp so far is in a row up to `r` and a column below `w`.
spec fn placed_within(st: GridLampState, r: int, w: int) -> bool {
    forall|j: int|
        0 <= j < st.placed.len() ==> 0 <= #[trigger] st.placed[j].0 <= r && 0 <= st.placed[j].1 < w
}

/// The loop's lamps are the state `st`.
spec fn layer_is(
    l: LampLayer,
    st: GridLampState,
    signals: Seq<Signal>,
    w: int,
    sx: int,
    sy: int,
    base: int,
    gray: bool,
) -> bool {
    &&& l.ents@.len() == st.placed.len()
    &&& forall|j: int|
        0 <= j < st.placed.len() ==> is_grid_lamp(
            #[trigger] l.ents@[j],
            base + j,
            sx + st.placed[j].1,
            sy + st.placed[j].0,
            signals[st.placed[j].0 * w + st.placed[j].1],
            gray,
        )
    &&& l.wires@ == st.wires
    &&& l.curr == st.curr
    &&& l.top_right == st.top_right
    &&& l.prev == st.prev
    &&& l.cols@ == st.cols
    &&& st.cols.len() == w
    &&& st.curr == base + st.placed.len()
}

/// Visits cell `(r, c)`: lays a lamp there unless a substation stands on
/// it, with its wires.
#[verifier::spinoff_prover]
fn lay_lamp(
    l: &mut LampLayer,
    signals: &[Signal],
    r: u32,
    c: u32,
    grid_width: u32,
    grid_height: u32,
    occupied_cells: &Vec<(i32, i32)>,
    start_entity_number: u32,
    start_x: i32,
    start_y: i32,
    use_grayscale: bool,
    use_horizontal_lamp_wires: bool,
)
    requires
        r < grid_height,
        c < grid_width,
        grid_width * grid_height <= signals@.len(),
        1 <= start_entity_number,
        start_entity_number + grid_width * grid_height <= u32::MAX,
        grid_width <= i32::MAX,
        grid_height <= i32::MAX,
        start_x + grid_width <= i32::MAX,
        start_y + grid_height <= i32::MAX,
        grid_lamps(
            r * grid_width + c,
            grid_width as int,
            start_x as int,
            start_y as int,
            occupied_cells@,
            use_horizontal_lamp_wires,
            start_entity_number as int,
        ).placed.len() <= r * grid_width + c,
        layer_is(
            *old(l),
            grid_lamps(
                r * grid_width + c,
                grid_width as int,
                start_x as int,
                start_y as int,
                occupied_cells@,
                use_horizontal_lamp_wires,
                start_entity_number as int,
            ),
            signals@,
            grid_width as int,
            start_x as int,
            start_y as int,
            start_entity_number as int,
            use_grayscale,
        ),
        placed_within(
            grid_lamps(
                r * grid_width + c,
                grid_width as int,
                start_x as int,
                start_y as int,
                occupied_cells@,
                use_horizontal_lamp_wires,
                start_entity_number as int,
            ),
            r as int,
            grid_width as int,
        ),
    ensures
        ({
            let st1 = grid_lamps(
                r * grid_width + c + 1,
                grid_width as int,
                start_x as int,
                start_y as int,
                occupied_cells@,
                use_horizontal_lamp_wires,
                start_entity_number as int,
            );
            &&& layer_is(
                *final(l),
                st1,
                signals@,
                grid_width as int,
                start_x as int,
                start_y as int,
                start_entity_number as int,
                use_grayscale,
            )
            &&& st1.placed.len() <= r * grid_width + c + 1
            &&& placed_within(st1, r as int, grid_width as int)
        }),
{
    let ghost w = grid_width as int;
    let ghost k = r * w + c;
    let ghost occ = occupied_cells@;
    let ghost horiz = use_horizontal_lamp_wires;
    let ghost base = start_entity_number as int;
    let ghost st0 = grid_lamps(k, w, start_x as int, start_y as int, occ, horiz, base);
    let ghost st1 = grid_lamps(k + 1, w, start_x as int, start_y as int, occ, horiz, base);
    proof {
        vstd::arithmetic::div_mod::lemma_fundamental_div_mod_converse(k, w, r as int, c as int);
        assert(k + 1 <= w * grid_height) by (nonlinear_arith)
            requires
                k == r * w + c,
                r < grid_height,
                c < w,
        ;
        assert(k >= 0) by (nonlinear_arith)
            requires
                k == r * w + c,
                r >= 0,
                c >= 0,
                w >= 0,
        ;
    }
    if c == 0 {
        l.prev = None;
    }
    let x = start_x + c as i32;
    let y = start_y + r as i32;
    let taken = cell_taken(occupied_cells, x, y);
    let ghost wires_before = l.wires@;
    let ghost prev_before = l.prev;
    proof {
        assert(k / w == r && k % w == c);
        assert(((start_x + c) as i32, (start_y + r) as i32) == (x, y));
    }
    if !taken {
        let index = (r * grid_width + c) as usize;
        proof {
            assert(r * grid_width + c < grid_width * grid_height) by (nonlinear_arith)
                requires
                    r < grid_height,
                    c < grid_width,
            ;
        }
        let signal = signals[index].clone();
        let colors = if use_grayscale {
            ControlBehavior::GrayLamp {
                use_colors: true,
                color_mode: 1,
                red_signal: signal.clone(),
                green_signal: signal.clone(),
                blue_signal: signal,
            }
        } else {
            ControlBehavior::ColorLamp { use_colors: true, color_mode: 2, rgb_signal: signal }
        };
        let curr = l.curr;
        let lamp = Entity::new(curr, LAMP.to_owned(), Position { x2: 2 * (x as i64), y2: 2 * (y as i64) })
            .with_control_behavior(colors).with_always_on(true);
        l.ents.push(lamp);
        if r == 0 && c > 0 {
            l.wires.push([curr, WIRE_G, curr - 1, WIRE_G]);
            l.wires.push([curr, WIRE_R, curr - 1, WIRE_R]);
        } else if use_horizontal_lamp_wires {
            match l.prev {
                Some(p) => {
                    l.wires.push([curr, WIRE_G, p, WIRE_G]);
                },
                None => {},
            }
            l.prev = Some(curr);
        }
        if r == 0 {
            l.top_right = curr;
        }
        if r > 0 {
            if !use_horizontal_lamp_wires || c + 1 == grid_width {
                match l.cols[c as usize] {
                    Some(pe) => {
                        l.wires.push([curr, WIRE_G, pe, WIRE_G]);
                    },
                    None => {},
                }
            }
        }
        l.cols.set(c as usize, Some(curr));
        l.curr = curr + 1;
        proof {
            let n = st0.curr;
            let w1 = if r == 0 && c > 0 {
                seq![
                    [n as u32, WIRE_G, (n - 1) as u32, WIRE_G],
                    [n as u32, WIRE_R, (n - 1) as u32, WIRE_R],
                ]
            } else if horiz {
                match prev_before {
                    Some(p) => seq![[n as u32, WIRE_G, p, WIRE_G]],
                    None => Seq::empty(),
                }
            } else {
                Seq::empty()
            };
            let w2 = if r > 0 && (!horiz || c + 1 == w) {
                match st0.cols[c as int] {
                    Some(pe) => seq![[n as u32, WIRE_G, pe, WIRE_G]],
                    None => Seq::empty(),
                }
            } else {
                Seq::empty()
            };
            assert(l.wires@ =~= wires_before + w1 + w2);
            assert(st1.placed[st0.placed.len() as int] == (r as int, c as int));
        }
    }
    proof {
        assert(l.wires@ =~= st1.wires);
        assert(l.cols@ =~= st1.cols);
        assert forall|j: int| 0 <= j < st1.placed.len() implies is_grid_lamp(
            #[trigger] l.ents@[j],
            base + j,
            start_x + st1.placed[j].1,
            start_y + st1.placed[j].0,
            signals@[st1.placed[j].0 * w + st1.placed[j].1],
            use_grayscale,
        ) by {
            if j < st0.placed.len() {
                assert(st1.placed[j] == st0.placed[j]);
            }
        }
        assert forall|j: int| 0 <= j < st1.placed.len() implies 0 <= #[trigger] st1.placed[j].0 <= r
            && 0 <= st1.placed[j].1 < w by {
            if j < st0.placed.len() {
                assert(st1.placed[j] == st0.placed[j]);
                assert(placed_within(st0, r as int, w));
                assert(0 <= st0.placed[j].0 <= r && 0 <= st0.placed[j].1 < w);
            } else {
                assert(!taken);
                assert(st1.placed[j] == (r as int, c as int));
            }
        }
        assert(l.ents@.len() == st1.placed.len());
        assert(l.curr == st1.curr);
        assert(l.top_right == st1.top_right);
        assert(l.prev == st1.prev);
        assert(st1.cols.len() == w);
        assert(st1.curr == base + st1.placed.len());
        assert(st1.placed.len() <= k + 1);
        assert(st1 == grid_lamps(
            r * grid_width + c + 1,
            grid_width as int,
            start_x as int,
            start_y as int,
            occupied_cells@,
            use_horizontal_lamp_wires,
            start_entity_number as int,
        ));
        assert(layer_is(*l, st1, signals@, w, start_x as int, start_y as int, base, use_grayscale));
        assert(placed_within(st1, r as int, w));
    }
}

/// Lays a `grid_width` by `grid_height` grid of lamps with its top left
/// corner at tile `(start_x, start_y)`, skipping the tiles in
/// `occupied_cells`; the lamp in row `r`, column `c` shows the signal
/// `signals[r * grid_width + c]`. Returns the lamps, their wires, the next
/// entity number and the top right lamp: the last lamp of the top row (0 if
/// the top row has none).
pub fn generate_lamps(
    signals: &[Signal],
    grid_width: u32,
    grid_height: u32,
    occupied_cells: &Vec<(i32, i32)>,
    start_entity_number: u32,
    start_x: i32,
    start_y: i32,
    use_grayscale: bool,
    use_horizontal_lamp_wires: bool,
) -> (r: (Vec<Entity>, Vec<Wire>, u32, u32))
    requires
        grid_width * grid_height <= signals@.len(),
        1 <= start_entity_number,
        start_entity_number + grid_width * grid_height <= u32::MAX,
        grid_width <= i32::MAX,
        grid_height <= i32::MAX,
        start_x + grid_width <= i32::MAX,
        start_y + grid_height <= i32::MAX,
    ensures
        ({
            let w = grid_width as int;
            let st = grid_lamps(
                w * grid_height,
                w,
                start_x as int,
                start_y as int,
                occupied_cells@,
                use_horizontal_lamp_wires,
                start_entity_number as int,
            );
            &&& r.0@.len() == st.placed.len()
            &&& forall|j: int|
                0 <= j < st.placed.len() ==> is_grid_lamp(
                    #[trigger] r.0@[j],
                    start_entity_number + j,
                    start_x + st.placed[j].1,
                    start_y + st.placed[j].0,
                    signals@[st.placed[j].0 * w + st.placed[j].1],
                    use_grayscale,
                )
            &&& r.1@ == st.wires
            &&& r.2 == st.curr
            &&& r.3 == st.top_right
        }),
{
    let ghost w = grid_width as int;
    let ghost occ = occupied_cells@;
    let ghost horiz = use_horizontal_lamp_wires;
    let ghost base = start_entity_number as int;
    let mut cols: Vec<Option<u32>> = Vec::new();
    let mut c0: u32 = 0;
    while c0 < grid_width
        invariant
            0 <= c0 <= grid_width,
            cols@ == Seq::new(c0 as nat, |i: int| None::<u32>),
        decreases grid_width - c0,
    {
        cols.push(None);
        proof {
            assert(cols@ =~= Seq::new((c0 + 1) as nat, |i: int| None::<u32>));
        }
        c0 += 1;
    }
    let mut l = LampLayer {
        ents: Vec::new(),
        wires: Vec::new(),
        curr: start_entity_number,
        top_right: 0,
        prev: None,
        cols,
    };
    let mut r: u32 = 0;
    while r < grid_height
        invariant
            0 <= r <= grid_height,
            grid_width * grid_height <= signals@.len(),
            1 <= start_entity_number,
            start_entity_number + grid_width * grid_height <= u32::MAX,
            grid_width <= i32::MAX,
            grid_height <= i32::MAX,
            start_x + grid_width <= i32::MAX,
            start_y + grid_height <= i32::MAX,
            w == grid_width,
            occ == occupied_cells@,
            horiz == use_horizontal_lamp_wires,
            base == start_entity_number,
            layer_is(l, grid_lamps(r * w, w, start_x as int, start_y as int, occ, horiz, base), signals@, w, start_x as int, start_y as int, base, use_grayscale),
            grid_lamps(r * w, w, start_x as int, start_y as int, occ, horiz, base).placed.len() <= r * w,
            r > 0 ==> placed_within(grid_lamps(r * w, w, start_x as int, start_y as int, occ, horiz, base), r - 1, w),
            r == 0 ==> grid_lamps(r * w, w, start_x as int, start_y as int, occ, horiz, base).placed.len() == 0,
        decreases grid_height - r,
    {
        let mut c: u32 = 0;
        while c < grid_width
            invariant
                0 <= r < grid_height,
                0 <= c <= grid_width,
                grid_width * grid_height <= signals@.len(),
                1 <= start_entity_number,
                start_entity_number + grid_width * grid_height <= u32::MAX,
                grid_width <= i32::MAX,
                grid_height <= i32::MAX,
                start_x + grid_width <= i32::MAX,
                start_y + grid_height <= i32::MAX,
                w == grid_width,
                occ == occupied_cells@,
                horiz == use_horizontal_lamp_wires,
                base == start_entity_number,
                layer_is(l, grid_lamps(r * w + c, w, start_x as int, start_y as int, occ, horiz, base), signals@, w, start_x as int, start_y as int, base, use_grayscale),
                grid_lamps(r * w + c, w, start_x as int, start_y as int, occ, horiz, base).placed.len() <= r * w + c,
                placed_within(grid_lamps(r * w + c, w, start_x as int, start_y as int, occ, horiz, base), r as int, w),
            decreases grid_width - c,
        {
            lay_lamp(
                &mut l,
                signals,
                r,
                c,
                grid_width,
                grid_height,
                occupied_cells,
                start_entity_number,
                start_x,
                start_y,
                use_grayscale,
                use_horizontal_lamp_wires,
            );
            c += 1;
        }
        proof {
            assert(r * w + w == (r + 1) * w) by (nonlinear_arith);
        }
        r += 1;
    }
    proof {
        assert(grid_height * w == w * grid_height) by (nonlinear_arith);
    }
    (l.ents, l.wires, l.curr, l.top_right)
}

// ---------------------------------------------------------------------------
// Combinators in columns
// ---------------------------------------------------------------------------

/// The options of the column layout.
pub struct BlueprintArgs {
    pub name: String,
    pub image_type: String,
    pub time_comp_window: u32,
    pub last_frame: bool,
    pub use_dlc: bool,
    pub target_fps: u32,
    pub max_size: u32,
    pub substation_quality: String,
    pub gray_bits: u32,
    pub samp_filter: String,
    pub green_wires: bool,
    pub horizontal_wires: bool,
    pub delta_comp: bool,
    pub sort_signals: bool,
}

/// Where the helpers of a group go, from the point `(x, y)` (half tiles):
/// a delay and a memory cell two tiles down, the shift and the mask one
/// tile down, the scale beside the mask.
pub open spec fn fixed_helpers(other: Seq<Entity>, delta: bool, gray_bits: u32, base: int, x: int, y: int) -> bool {
    let s = base + if delta {
        2int
    } else {
        0int
    };
    let d = if delta {
        2int
    } else {
        0int
    };
    &&& other.len() == n_helpers(delta, gray_bits)
    &&& delta ==> {
        &&& is_helper(
            other[0],
            base,
            DEC_CB@,
            Position { x2: (x + 2) as i64, y2: (y + 4) as i64 },
            DIR_R,
            "delay comb"@,
            Some(DELAY_DESC@),
        )
        &&& is_delay_settings(other[0].control_behavior)
        &&& is_helper(
            other[1],
            base + 1,
            DEC_CB@,
            Position { x2: (x + 6) as i64, y2: (y + 4) as i64 },
            DIR_R,
            "memory comb"@,
            Some(MEMORY_DESC@),
        )
        &&& is_memory_settings(other[1].control_behavior)
    }
    &&& gray_bits > 0 ==> {
        &&& is_helper(
            other[d],
            s,
            ARI_CB@,
            Position { x2: (x + 4) as i64, y2: (y + 2) as i64 },
            DIR_R,
            ">> comb"@,
            Some(SHIFT_DESC@),
        )
        &&& is_shift_settings(other[d].control_behavior)
        &&& is_helper(
            other[d + 1],
            s + 1,
            ARI_CB@,
            Position { x2: (x + 8) as i64, y2: (y + 2) as i64 },
            DIR_R,
            "AND comb"@,
            Some(MASK_DESC@),
        )
        &&& other[d + 1].control_behavior matches Some(
            ControlBehavior::Arithmetic { arithmetic_conditions: ac },
        ) && is_arithmetic_virtual(ac, SIG_EACH@, OP_AND@, gray_mask(gray_bits), SIG_EACH@)
    }
    &&& (gray_bits == 1 || gray_bits == 4) ==> {
        &&& is_helper(
            other[d + 2],
            s + 2,
            ARI_CB@,
            Position { x2: (x + 10) as i64, y2: (y + 4) as i64 },
            DIR_L,
            "* comb"@,
            None,
        )
        &&& other[d + 2].control_behavior matches Some(
            ControlBehavior::Arithmetic { arithmetic_conditions: ac },
        ) && is_arithmetic_virtual(ac, SIG_EACH@, OP_MUL@, gray_scale(gray_bits), SIG_EACH@)
    }
}

/// Builds the helpers of a group at their fixed places.
fn fixed_helper_combs(delta: bool, gray_bits: u32, base: u32, x: i64, y: i64) -> (r: (Vec<Entity>, Vec<Wire>, u32))
    requires
        1 <= base,
        base + 5 <= u32::MAX,
        -0x100_0000_0000 <= x <= 0x100_0000_0000,
        -0x100_0000_0000 <= y <= 0x100_0000_0000,
    ensures
        fixed_helpers(r.0@, delta, gray_bits, base as int, x as int, y as int),
        r.1@ == helper_wires(delta, gray_bits, base as int),
        r.2 == base + n_helpers(delta, gray_bits),
{
    let mut other: Vec<Entity> = Vec::new();
    let mut wires: Vec<Wire> = Vec::new();
    let mut curr = base;
    if delta {
        let mut conds: Vec<Condition> = Vec::new();
        conds.push(Condition::new(Signal::new_virtual(SIG_EACH.to_owned()), 0, COMP_NE));
        let mut outs: Vec<CombinatorOutput> = Vec::new();
        outs.push(CombinatorOutput::new(Signal::new_virtual(SIG_EACH.to_owned()), None));
        let dc = DeciderConditions { conditions: Some(conds), outputs: Some(outs) };
        other.push(
            Entity::new(curr, DEC_CB.to_owned(), Position { x2: x + 2, y2: y + 4 }).with_tag(
                "delay comb",
            ).with_direction(DIR_R).with_control_behavior(
                ControlBehavior::from_decider_conditions(dc),
            ).with_description(DELAY_DESC),
        );
        curr += 1;
        let mut conds: Vec<Condition> = Vec::new();
        conds.push(
            Condition::new(Signal::new_virtual(SIG_EACH.to_owned()), 0, COMP_NE).with_first_signal_networks(
                NetworkFilters::green(),
            ),
        );
        conds.push(
            Condition::new(Signal::new_virtual(SIG_T.to_owned()), 0, COMP_NE).with_compare_type(
                COMP_AND,
            ).with_first_signal_networks(NetworkFilters::red()),
        );
        let mut outs: Vec<CombinatorOutput> = Vec::new();
        outs.push(
            CombinatorOutput::new(Signal::new_virtual(SIG_EACH.to_owned()), None).with_networks(
                NetworkFilters::green(),
            ),
        );
        let dc = DeciderConditions { conditions: Some(conds), outputs: Some(outs) };
        other.push(
            Entity::new(curr, DEC_CB.to_owned(), Position { x2: x + 6, y2: y + 4 }).with_tag(
                "memory comb",
            ).with_direction(DIR_R).with_control_behavior(
                ControlBehavior::from_decider_conditions(dc),
            ).with_description(MEMORY_DESC),
        );
        // The memory holds its value by feeding its output back in.
        wires.push([curr, WIRE_G, curr, WIRE_OUT_G]);
        wires.push([base, WIRE_OUT_R, curr, WIRE_R]);
        curr += 1;
    }
    if gray_bits > 0 {
        let s = curr;
        let ac = ArithmeticConditions {
            first_signal: Some(Signal::new_virtual(SIG_EACH.to_owned())),
            second_signal: Some(Signal::new_virtual(SIG_F.to_owned())),
            second_constant: None,
            operation: Some(OP_RSHIFT.to_owned()),
            output_signal: Some(Signal::new_virtual(SIG_EACH.to_owned())),
        };
        other.push(
            Entity::new(curr, ARI_CB.to_owned(), Position { x2: x + 4, y2: y + 2 }).with_tag(
                ">> comb",
            ).with_direction(DIR_R).with_control_behavior(
                ControlBehavior::from_arithmetic_conditions(ac),
            ).with_description(SHIFT_DESC),
        );
        curr += 1;
        let mask: i32 = if gray_bits == 1 {
            1
        } else if gray_bits == 4 {
            15
        } else {
            255
        };
        other.push(
            Entity::new(curr, ARI_CB.to_owned(), Position { x2: x + 8, y2: y + 2 }).with_tag(
                "AND comb",
            ).with_direction(DIR_R).with_control_behavior(
                ControlBehavior::from_arithmetic_conditions(
                    arithmetic_virtual(SIG_EACH, OP_AND, mask, SIG_EACH),
                ),
            ).with_description(MASK_DESC),
        );
        wires.push([s, WIRE_OUT_R, curr, WIRE_R]);
        if delta {
            wires.push([base + 1, WIRE_OUT_G, s, WIRE_G]);
            wires.push([base, WIRE_OUT_R, s, WIRE_R]);
        }
        curr += 1;
        if gray_bits == 1 || gray_bits == 4 {
            let factor: i32 = if gray_bits == 1 {
                255
            } else {
                17
            };
            other.push(
                Entity::new(curr, ARI_CB.to_owned(), Position { x2: x + 10, y2: y + 4 }).with_tag(
                    "* comb",
                ).with_direction(DIR_L).with_control_behavior(
                    ControlBehavior::from_arithmetic_conditions(
                        arithmetic_virtual(SIG_EACH, OP_MUL, factor, SIG_EACH),
                    ),
                ),
            );
            wires.push([curr - 1, WIRE_OUT_R, curr, WIRE_R]);
            curr += 1;
        }
    }
    proof {
        assert(wires@ =~= helper_wires(delta, gray_bits, base as int));
    }
    (other, wires, curr)
}

/// Progress of stacking data combinators in columns: how far the column is
/// pushed down past substations, the row and column, whether the next one
/// starts a column, the first of the previous column, the wires, and where
/// each combinator went.
pub struct ColumnState {
    pub y_off: int,
    pub row: int,
    pub x_off: int,
    pub starts_col: bool,
    pub prev_first: Option<u32>,
    pub wires: Seq<Wire>,
    pub pos: Seq<Position>,
}

/// The data combinators' columns after `k` of them, stacked upward from
/// `(x, y)` (half tiles) `max_rows` to a column, the first numbered
/// `first`: a combinator on a row where substations stand moves two tiles
/// up, as do the ones after it in the column; each joins the one below it,
/// and the first of a column the first of the column before.
pub open spec fn column_run(
    k: int,
    x: int,
    y: int,
    occupied_y: Seq<i32>,
    max_rows: int,
    first: int,
    feed: Option<int>,
) -> ColumnState
    decreases k,
{
    if k <= 0 {
        ColumnState {
            y_off: 0,
            row: 0,
            x_off: 0,
            starts_col: true,
            prev_first: None,
            wires: Seq::empty(),
            pos: Seq::empty(),
        }
    } else {
        let s = column_run(k - 1, x, y, occupied_y, max_rows, first, feed);
        let n = first + k - 1;
        let cy = y - 2 * s.row - s.y_off;
        let hit = occupied_y.contains((cy / 2) as i32);
        let y_off = if hit {
            s.y_off + 4
        } else {
            s.y_off
        };
        let py = if hit {
            cy - 4
        } else {
            cy
        };
        let lead = if k - 1 == 0 {
            match feed {
                Some(f) => seq![[n as u32, WIRE_OUT_G, f as u32, WIRE_G]],
                None => Seq::empty(),
            }
        } else {
            Seq::empty()
        };
        let link = if !s.starts_col {
            seq![[(n - 1) as u32, WIRE_R, n as u32, WIRE_R], [(n - 1) as u32, WIRE_OUT_G, n as u32, WIRE_OUT_G]]
        } else {
            match s.prev_first {
                Some(p) => seq![[p, WIRE_R, n as u32, WIRE_R], [p, WIRE_OUT_G, n as u32, WIRE_OUT_G]],
                None => Seq::empty(),
            }
        };
        let row = s.row + 1;
        let wrap = row >= max_rows;
        ColumnState {
            y_off: if wrap {
                0
            } else {
                y_off
            },
            row: if wrap {
                0
            } else {
                row
            },
            x_off: if wrap {
                s.x_off + 4
            } else {
                s.x_off
            },
            starts_col: wrap,
            prev_first: if s.starts_col {
                Some(n as u32)
            } else {
                s.prev_first
            },
            wires: s.wires + lead + link,
            pos: s.pos.push(Position { x2: (x + s.x_off) as i64, y2: py as i64 }),
        }
    }
}

/// A data combinator without settings.
pub open spec fn is_column_comb(e: Entity, n: int, pos: Position, first: bool) -> bool {
    &&& e.entity_number == n
    &&& e.name@ == DEC_CB@
    &&& e.position == pos
    &&& e.direction == Some(DIR_R)
    &&& e.control_behavior is None
    &&& e.player_description is None
    &&& e.quality is None
    &&& e.always_on is None
    &&& e.color is None
    &&& if first {
        e.custom_tag matches Some(t) && t@ == "first data comb"@
    } else {
        e.custom_tag is None
    }
}

/// Bounds that keep the column state small.
spec fn column_bounds(s: ColumnState, k: int) -> bool {
    &&& 0 <= s.y_off <= 4 * k
    &&& 0 <= s.row <= k
    &&& 0 <= s.x_off <= 4 * k
    &&& s.pos.len() == k
    &&& s.prev_first matches Some(p) ==> p < 0x1_0000_0000
}

/// Whether a row is among the rows substations stand on.
fn row_taken(rows: &Vec<i32>, y: i32) -> (r: bool)
    ensures
        r == rows@.contains(y),
{
    let mut i: usize = 0;
    while i < rows.len()
        invariant
            0 <= i <= rows@.len(),
            forall|j: int| 0 <= j < i ==> rows@[j] != y,
        decreases rows@.len() - i,
    {
        if rows[i] == y {
            proof {
                assert(rows@[i as int] == y);
            }
            return true;
        }
        i += 1;
    }
    false
}

/// The combinators of one group: the helpers that decode the packed data at
/// fixed places beside `(base_decider_x, base_y)` (half tiles), and
/// `n_chunks` data combinators (without data yet) in columns of
/// `max_rows_per_group`, moved up past rows in `occupied_y`. Returns the
/// helpers, the data combinators, their wires, and the entity that takes the
/// timer's signal, the entity whose output feeds the lamps, and the next
/// entity number.
pub fn mk_frame_combs(
    n_chunks: u64,
    occupied_y: &Vec<i32>,
    base_ent_i: u32,
    base_decider_x: i64,
    base_y: i64,
    max_rows_per_group: u32,
    args: &BlueprintArgs,
) -> (r: (Vec<Entity>, Vec<Entity>, Vec<Wire>, (u32, u32, u32)))
    requires
        1 <= n_chunks,
        1 <= base_ent_i,
        base_ent_i + 5 + n_chunks <= u32::MAX,
        -0x100_0000_0000 <= base_decider_x <= 0x100_0000_0000,
        -0x100_0000_0000 <= base_y <= 0x100_0000_0000,
    ensures
        ({
            let delta = args.delta_comp;
            let gray = args.gray_bits;
            let base = base_ent_i as int;
            let first = base + n_helpers(delta, gray);
            let feed = if delta {
                Some(base + 1)
            } else if gray > 0 {
                Some(base)
            } else {
                None
            };
            let run = column_run(
                n_chunks as int,
                base_decider_x as int,
                base_y as int,
                occupied_y@,
                max_rows_per_group as int,
                first,
                feed,
            );
            &&& fixed_helpers(r.0@, delta, gray, base, base_decider_x as int, base_y as int)
            &&& r.1@.len() == n_chunks
            &&& forall|k: int|
                0 <= k < n_chunks ==> is_column_comb(#[trigger] r.1@[k], first + k, run.pos[k], k == 0)
            &&& r.2@ == helper_wires(delta, gray, base) + run.wires + seq![
                [base_ent_i, WIRE_R, first as u32, WIRE_R],
            ]
            &&& r.3 == (
                base_ent_i,
                (if gray > 0 {
                    first - 1
                } else if delta {
                    base + 1
                } else {
                    base
                }) as u32,
                (first + n_chunks) as u32,
            )
        }),
{
    let delta = args.delta_comp;
    let gray_bits = args.gray_bits;
    let (other, mut wires, first) = fixed_helper_combs(delta, gray_bits, base_ent_i, base_decider_x, base_y);
    let comb_out: u32 = if gray_bits > 0 {
        first - 1
    } else if delta {
        base_ent_i + 1
    } else {
        base_ent_i
    };
    let feed: Option<u32> = if delta {
        Some(base_ent_i + 1)
    } else if gray_bits > 0 {
        Some(base_ent_i)
    } else {
        None
    };
    let ghost feed_s = if delta {
        Some(base_ent_i + 1)
    } else if gray_bits > 0 {
        Some(base_ent_i as int)
    } else {
        None
    };
    let ghost hw = wires@;
    let mut data: Vec<Entity> = Vec::new();
    let mut is_first_in_col = true;
    let mut x_offset: i64 = 0;
    let mut y_offset: i64 = 0;
    let mut row: i64 = 0;
    let mut prev_first: Option<u32> = None;
    let mut curr = first;
    let mut chunk_i: u64 = 0;
    proof {
        assert(wires@ =~= hw + column_run(0, base_decider_x as int, base_y as int, occupied_y@, max_rows_per_group as int, first as int, feed_s).wires);
    }
    while chunk_i < n_chunks
        invariant
            0 <= chunk_i <= n_chunks,
            1 <= n_chunks,
            first + n_chunks <= u32::MAX,
            first == base_ent_i + n_helpers(delta, gray_bits),
            curr == first + chunk_i,
            -0x100_0000_0000 <= base_decider_x <= 0x100_0000_0000,
            -0x100_0000_0000 <= base_y <= 0x100_0000_0000,
            feed == match feed_s {
                Some(f) => Some(f as u32),
                None => None::<u32>,
            },
            feed_s matches Some(f) ==> 0 <= f < 0x1_0000_0000,
            ({
                let s = column_run(chunk_i as int, base_decider_x as int, base_y as int, occupied_y@, max_rows_per_group as int, first as int, feed_s);
                &&& column_bounds(s, chunk_i as int)
                &&& y_offset == s.y_off
                &&& row == s.row
                &&& x_offset == s.x_off
                &&& is_first_in_col == s.starts_col
                &&& prev_first == s.prev_first
                &&& wires@ == hw + s.wires
                &&& s.y_off % 4 == 0
                &&& data@.len() == chunk_i
                &&& forall|k: int|
                    0 <= k < chunk_i ==> is_column_comb(#[trigger] data@[k], first + k, s.pos[k], k == 0)
            }),
        decreases n_chunks - chunk_i,
    {
        let ghost s = column_run(chunk_i as int, base_decider_x as int, base_y as int, occupied_y@, max_rows_per_group as int, first as int, feed_s);
        let ghost s1 = column_run(chunk_i + 1, base_decider_x as int, base_y as int, occupied_y@, max_rows_per_group as int, first as int, feed_s);
        let mut curr_y = base_y - 2 * row - y_offset;
        proof {
            assert(-0x200_0000_0000 <= curr_y <= 0x200_0000_0000);
        }
        // The tile row is the half-tile row halved, rounded down.
        let tile_y: i64 = (curr_y + 0x400_0000_0000) / 2 - 0x200_0000_0000;
        proof {
            assert(tile_y == curr_y as int / 2);
        }
        let hit = row_taken(occupied_y, tile_y as i32);
        if hit {
            y_offset += 4;
            curr_y -= 4;
        }
        let mut en = Entity::new(curr, DEC_CB.to_owned(), Position { x2: base_decider_x + x_offset, y2: curr_y })
            .with_direction(DIR_R);
        let ghost w0 = wires@;
        if chunk_i == 0 {
            en = en.with_tag("first data comb");
            match feed {
                Some(f) => {
                    wires.push([curr, WIRE_OUT_G, f, WIRE_G]);
                },
                None => {},
            }
        }
        data.push(en);
        if !is_first_in_col {
            // Joins the combinator below it.
            wires.push([curr - 1, WIRE_R, curr, WIRE_R]);
            wires.push([curr - 1, WIRE_OUT_G, curr, WIRE_OUT_G]);
        } else {
            // Joins the first combinator of the column before.
            match prev_first {
                Some(p) => {
                    wires.push([p, WIRE_R, curr, WIRE_R]);
                    wires.push([p, WIRE_OUT_G, curr, WIRE_OUT_G]);
                },
                None => {},
            }
            prev_first = Some(curr);
        }
        is_first_in_col = false;
        curr += 1;
        row += 1;
        if row >= max_rows_per_group as i64 {
            row = 0;
            is_first_in_col = true;
            y_offset = 0;
            x_offset += 4;
        }
        proof {
            assert(wires@ =~= hw + s1.wires);
            assert forall|k: int| 0 <= k < chunk_i + 1 implies is_column_comb(
                #[trigger] data@[k],
                first + k,
                s1.pos[k],
                k == 0,
            ) by {
                if k < chunk_i {
                    assert(s1.pos[k] == s.pos[k]);
                }
            }
        }
        chunk_i += 1;
    }
    wires.push([base_ent_i, WIRE_R, first, WIRE_R]);
    (other, data, wires, (base_ent_i, comb_out, curr))
}

/// The error, if any, with which group `g` refuses its image of `frame` in
/// a blueprint of `n_ents` entities: that of packing the image (see
/// `group_patch_error`), else `MissingEntity` where a data combinator it
/// writes has no entity of its number to replace.
pub open spec fn frame_group_error(
    states: Seq<PatchSpecState>,
    frame: Raster,
    max_cols: int,
    is_last: bool,
    cfg: PatchConfig,
    signals: Seq<Signal>,
    combs: Seq<Seq<Entity>>,
    n_ents: int,
    g: int,
) -> Option<BlueprintError> {
    match group_patch_error(states, frame, max_cols, is_last, cfg, signals, combs[g].len() as int, g) {
        Some(e) => Some(e),
        None => {
            let ws = group_windows(states, frame, max_cols, is_last, cfg, signals, g);
            if forall|k: int|
                0 <= k < ws.len() ==> 1 <= (#[trigger] combs[g][ws[k].comb]).entity_number <= n_ents {
                None
            } else {
                Some(BlueprintError::MissingEntity)
            }
        },
    }
}

/// The data combinators written for windows carry the numbers of their
/// templates.
proof fn lemma_written_numbers(w: Seq<Entity>, ws: Seq<WindowSpec>, combs: Seq<Entity>, n: int)
    requires
        windows_written(Seq::empty(), w, ws, combs),
    ensures
        numbers_in_range(n, w) <==> forall|k: int|
            0 <= k < ws.len() ==> 1 <= (#[trigger] combs[ws[k].comb]).entity_number <= n,
{
    assert forall|k: int| 0 <= k < ws.len() implies (#[trigger] w[k]).entity_number
        == combs[ws[k].comb].entity_number by {
        assert(w[0 + k] == w[k]);
    }
    if numbers_in_range(n, w) {
        assert forall|k: int| 0 <= k < ws.len() implies 1 <= (#[trigger] combs[ws[k].comb]).entity_number
            <= n by {
            assert(w[k].entity_number == combs[ws[k].comb].entity_number);
        }
    }
    if forall|k: int| 0 <= k < ws.len() ==> 1 <= (#[trigger] combs[ws[k].comb]).entity_number <= n {
        assert forall|k: int| 0 <= k < w.len() implies 1 <= (#[trigger] w[k]).entity_number <= n by {
            assert(w[k].entity_number == combs[ws[k].comb].entity_number);
        }
    }
}

/// Entities numbered 1, 2, 3, ... in order.
pub open spec fn numbered_from_one(ents: Seq<Entity>) -> bool {
    forall|i: int| 0 <= i < ents.len() ==> (#[trigger] ents[i]).entity_number == i + 1
}

/// The helpers of a group are numbered consecutively from `base`.
proof fn lemma_fixed_helpers_numbered(other: Seq<Entity>, delta: bool, gray_bits: u32, base: int, x: int, y: int)
    requires
        fixed_helpers(other, delta, gray_bits, base, x, y),
    ensures
        forall|k: int| 0 <= k < other.len() ==> (#[trigger] other[k]).entity_number == base + k,
{
}

/// Appending entities numbered on from `next` keeps the numbering.
proof fn lemma_numbered_append(a: Seq<Entity>, b: Seq<Entity>)
    requires
        numbered_from_one(a),
        forall|k: int| 0 <= k < b.len() ==> (#[trigger] b[k]).entity_number == a.len() + 1 + k,
    ensures
        numbered_from_one(a + b),
{
    assert forall|i: int| 0 <= i < (a + b).len() implies (#[trigger] (a + b)[i]).entity_number == i + 1 by {
        if i >= a.len() {
            assert((a + b)[i] == b[i - a.len()]);
        }
    }
}

/// `ents` with each of `written`, in order, put in place of the entity of
/// its number (entity `n` standing at index `n - 1`); an entity whose
/// number is out of range replaces nothing.
pub open spec fn entities_replaced(ents: Seq<Entity>, written: Seq<Entity>) -> Seq<Entity>
    decreases written.len(),
{
    if written.len() == 0 {
        ents
    } else {
        let prev = entities_replaced(ents, written.drop_last());
        let w = written.last();
        if 1 <= w.entity_number <= prev.len() {
            prev.update(w.entity_number - 1, w)
        } else {
            prev
        }
    }
}

/// Every entity of `written` has the number of one of `n` entities.
pub open spec fn numbers_in_range(n: int, written: Seq<Entity>) -> bool {
    forall|k: int| 0 <= k < written.len() ==> 1 <= (#[trigger] written[k]).entity_number <= n
}

/// Replacing keeps the number of entities.
proof fn lemma_entities_replaced_len(ents: Seq<Entity>, written: Seq<Entity>)
    ensures
        entities_replaced(ents, written).len() == ents.len(),
    decreases written.len(),
{
    if written.len() > 0 {
        lemma_entities_replaced_len(ents, written.drop_last());
    }
}

/// Replacing with `a` and then `b` is replacing with `a + b`.
proof fn lemma_entities_replaced_concat(ents: Seq<Entity>, a: Seq<Entity>, b: Seq<Entity>)
    ensures
        entities_replaced(entities_replaced(ents, a), b) == entities_replaced(ents, a + b),
    decreases b.len(),
{
    if b.len() == 0 {
        assert(a + b =~= a);
    } else {
        lemma_entities_replaced_concat(ents, a, b.drop_last());
        assert((a + b).drop_last() =~= a + b.drop_last());
        assert((a + b).last() == b.last());
    }
}

// ---------------------------------------------------------------------------
// The whole column-layout blueprint
// ---------------------------------------------------------------------------

/// Settings the column-layout builder can run with: sizes within reach
/// and products that fit.
pub open spec fn build_ok(n_frames: u32, fps: u32, w: u32, h: u32, args: BlueprintArgs) -> bool {
    &&& w <= 0x7fff_ffff
    &&& 1 <= h <= 0x7fff_ffff
    &&& args.gray_bits <= 32
    &&& 1 <= fps
    &&& 2 * n_frames <= u32::MAX
    &&& n_frames * (60int / (fps as int)) <= u32::MAX
}

/// Frames per data combinator.
pub open spec fn frames_per_comb(gray_bits: u32) -> int {
    if gray_bits > 0 {
        32int / (gray_bits as int)
    } else {
        1
    }
}

/// Rows of data combinators per column: as many as the group's frames need
/// over half its width; without limit for a group one lamp wide.
pub open spec fn max_rows(n_scaled: int, cols: int, fpc: int) -> int {
    if cols / 2 == 0 {
        u32::MAX as int
    } else {
        let per_col = (n_scaled + cols / 2 - 1) / (cols / 2);
        (per_col + fpc - 1) / fpc
    }
}

/// The numbers the column layout is planned with.
pub struct ColumnPlan {
    /// Lamp columns the signals allow (at most the width).
    pub m: int,
    /// Groups of lamps, and columns of a full group.
    pub groups: int,
    pub mcg: int,
    /// Frames per data combinator, packed frames, and data combinators
    /// per group.
    pub fpc: int,
    pub scaled: int,
    pub chunks: int,
    /// Packed frames per compression window.
    pub n_buf: int,
    /// Rows the substation grid covers above the lamps.
    pub rows: int,
    /// Substations, and the tiles they stand on.
    pub n_subs: int,
    pub cells: Seq<(i32, i32)>,
    /// The entity number after the timer.
    pub after_timer: int,
}

/// Rows of combinators the helpers of a group take beyond its data.
pub open spec fn helper_rows(gray_bits: u32) -> int {
    if gray_bits == 1 || gray_bits == 4 {
        2
    } else if gray_bits == 8 {
        1
    } else {
        0
    }
}

/// The plan for `n_frames` frames of `w` by `h` at `fps`.
pub open spec fn column_plan(
    n_frames: u32,
    fps: u32,
    w: u32,
    h: u32,
    args: BlueprintArgs,
    list: Seq<SignalEntry>,
) -> ColumnPlan {
    let n_signals = build_signals(args, list).len() as int;
    let by = (n_signals as u32) / h;
    let m = if by < w { by as int } else { w as int };
    let groups = (w + m - 1) / m;
    let mcg = (w as int) / groups;
    let fpc = frames_per_comb(args.gray_bits);
    let scaled = n_frames * (if args.time_comp_window > 0 { 2int } else { 1int });
    let den = 1000 * fpc;
    let n_buf = if args.time_comp_window > 0 {
        (args.time_comp_window * fps + den - 1) / den
    } else {
        1
    };
    let rows = max_rows(scaled, mcg, fpc) + helper_rows(args.gray_bits);
    let q = args.substation_quality@;
    let (gw, gh, x0, y0) = grid_layout(q, w as int, h as int, rows);
    ColumnPlan {
        m,
        groups,
        mcg,
        fpc,
        scaled,
        chunks: (scaled + fpc - 1) / fpc,
        n_buf,
        rows,
        n_subs: if q == QUAL_NONE@ { 0 } else { gw * gh },
        cells: if q == QUAL_NONE@ {
            Seq::empty()
        } else {
            grid_cells(gw * gh, gw, x0, y0, grid_coverage(q))
        },
        after_timer: if args.gray_bits > 0 { 7 } else { 4 },
    }
}

/// The lamps of group `g`, laid from entity number 0.
pub open spec fn column_group_lamps(plan: ColumnPlan, w: u32, h: u32, args: BlueprintArgs, g: int) -> GridLampState {
    let gw = group_width(g, plan.mcg, w as int);
    grid_lamps(gw * h, gw, g * plan.mcg, 0, plan.cells, args.horizontal_wires, 0)
}

/// The first entity number of group `g`: after the timer, the
/// substations, and the helpers, data combinators and lamps of the groups
/// before.
pub open spec fn column_base(plan: ColumnPlan, w: u32, h: u32, args: BlueprintArgs, g: int) -> int
    decreases g,
{
    if g <= 0 {
        plan.after_timer + plan.n_subs
    } else {
        column_base(plan, w, h, args, g - 1) + n_helpers(args.delta_comp, args.gray_bits) + plan.chunks
            + column_group_lamps(plan, w, h, args, g - 1).placed.len()
    }
}

/// The error group `g` stops the layout with, if any: entity numbers that
/// would not fit, or a group without a lamp.
pub open spec fn column_group_error(plan: ColumnPlan, w: u32, h: u32, args: BlueprintArgs, g: int) -> Option<BlueprintError> {
    let base = column_base(plan, w, h, args, g);
    let after_combs = base + n_helpers(args.delta_comp, args.gray_bits) + plan.chunks;
    if base + 5 + plan.chunks > u32::MAX {
        Some(BlueprintError::TooManyEntities)
    } else if after_combs + group_width(g, plan.mcg, w as int) * h > u32::MAX {
        Some(BlueprintError::TooManyEntities)
    } else if column_group_lamps(plan, w, h, args, g).placed.len() == 0 {
        Some(BlueprintError::MissingEntity)
    } else {
        None
    }
}

/// The first error among groups `0..k`.
pub open spec fn column_groups_error(plan: ColumnPlan, w: u32, h: u32, args: BlueprintArgs, k: int) -> Option<BlueprintError>
    decreases k,
{
    if k <= 0 {
        None
    } else {
        match column_groups_error(plan, w, h, args, k - 1) {
            Some(e) => Some(e),
            None => column_group_error(plan, w, h, args, k - 1),
        }
    }
}

/// The error the column layout stops with, if any: no frames, too few
/// signals for a column, or sizes and entity numbers out of range.
pub open spec fn column_error(
    n_frames: u32,
    fps: u32,
    w: u32,
    h: u32,
    args: BlueprintArgs,
    list: Seq<SignalEntry>,
) -> Option<BlueprintError> {
    let plan = column_plan(n_frames, fps, w, h, args, list);
    if n_frames == 0 {
        Some(BlueprintError::NoSampledFrames)
    } else if plan.m == 0 {
        Some(BlueprintError::NotEnoughSignals)
    } else if plan.n_buf > usize::MAX {
        Some(BlueprintError::TooManyEntities)
    } else if (args.substation_quality@ != QUAL_NONE@ && (w > 0x100_0000 || h > 0x100_0000 || plan.rows
        > 0x100_0000)) || plan.after_timer + plan.n_subs > u32::MAX {
        Some(BlueprintError::TooManyEntities)
    } else {
        column_groups_error(plan, w, h, args, plan.groups)
    }
}

/// The first lamp number of group `g`, after its helpers and data
/// combinators.
pub open spec fn column_lamp_base(plan: ColumnPlan, w: u32, h: u32, args: BlueprintArgs, g: int) -> int {
    column_base(plan, w, h, args, g) + n_helpers(args.delta_comp, args.gray_bits) + plan.chunks
}

/// The lamps of group `g`, numbered from its first lamp number.
pub open spec fn column_lamps_at(plan: ColumnPlan, w: u32, h: u32, args: BlueprintArgs, g: int) -> GridLampState {
    let gw = group_width(g, plan.mcg, w as int);
    grid_lamps(gw * h, gw, g * plan.mcg, 0, plan.cells, args.horizontal_wires, column_lamp_base(plan, w, h, args, g))
}

/// The rows the substations stand on.
pub open spec fn cell_rows(cells: Seq<(i32, i32)>) -> Seq<i32> {
    cells.map_values(|c: (i32, i32)| c.1)
}

/// The row the helpers of every group start from.
pub open spec fn helper_base_y(gray_bits: u32) -> int {
    if gray_bits == 1 || gray_bits == 4 {
        -10
    } else if gray_bits == 8 {
        -8
    } else {
        -6
    }
}

/// The data combinators of group `g`, laid in its column.
pub open spec fn column_comb_run(plan: ColumnPlan, w: u32, h: u32, args: BlueprintArgs, g: int) -> ColumnState {
    let base = column_base(plan, w, h, args, g);
    column_run(
        plan.chunks,
        2 * (g * plan.mcg) + 1,
        helper_base_y(args.gray_bits),
        cell_rows(plan.cells),
        max_rows(plan.scaled, plan.mcg, plan.fpc),
        base + n_helpers(args.delta_comp, args.gray_bits),
        if args.delta_comp {
            Some(base + 1)
        } else if args.gray_bits > 0 {
            Some(base)
        } else {
            None
        },
    )
}

/// The wires of group `g`: those of its helpers and data combinators, the
/// timer's output into the first group, its first lamp joined to its
/// helpers, the wires of its lamps, and its first lamp joined to the top
/// right lamp of the group before.
pub open spec fn column_group_wires(plan: ColumnPlan, w: u32, h: u32, args: BlueprintArgs, g: int) -> Seq<Wire> {
    let base = column_base(plan, w, h, args, g);
    let first = base + n_helpers(args.delta_comp, args.gray_bits);
    let comb_out = if args.gray_bits > 0 {
        first - 1
    } else if args.delta_comp {
        base + 1
    } else {
        base
    };
    let lamp = column_lamp_base(plan, w, h, args, g) as u32;
    helper_wires(args.delta_comp, args.gray_bits, base) + column_comb_run(plan, w, h, args, g).wires + seq![
        [base as u32, WIRE_R, first as u32, WIRE_R],
    ] + (if g == 0 {
        seq![[3u32, WIRE_OUT_R, base as u32, WIRE_R]]
    } else {
        Seq::empty()
    }) + seq![[lamp, WIRE_R, base as u32, WIRE_R], [lamp, WIRE_G, comb_out as u32, WIRE_OUT_G]]
        + column_lamps_at(plan, w, h, args, g).wires + (if g > 0 {
        seq![[lamp, WIRE_R, column_lamps_at(plan, w, h, args, g - 1).top_right, WIRE_R]]
    } else {
        Seq::empty()
    })
}

/// The wires of the column layout up to group `k`, before any swap of
/// colours: the timer's, the substations', then each group's.
pub open spec fn column_wires(plan: ColumnPlan, w: u32, h: u32, args: BlueprintArgs, k: int) -> Seq<Wire>
    decreases k,
{
    if k <= 0 {
        let q = args.substation_quality@;
        let (gw, gh, x0, y0) = grid_layout(q, w as int, h as int, plan.rows);
        timer_wires(args.gray_bits > 0) + if q == QUAL_NONE@ {
            Seq::empty()
        } else {
            grid_wires(gw * gh, gw, plan.after_timer)
        }
    } else {
        column_wires(plan, w, h, args, k - 1) + column_group_wires(plan, w, h, args, k - 1)
    }
}

/// The entities of the column layout hold, at their numbers, the
/// substations of the grid and each group's lamps, one per free cell, with
/// the signal of its cell.
#[verifier::opaque]
pub open spec fn column_entities(ents: Seq<Entity>, plan: ColumnPlan, w: u32, h: u32, args: BlueprintArgs, k: int, signals: Seq<Signal>) -> bool {
    let q = args.substation_quality@;
    let (gw, gh, x0, y0) = grid_layout(q, w as int, h as int, plan.rows);
    &&& q != QUAL_NONE@ ==> forall|i: int|
        0 <= i < plan.n_subs ==> is_grid_substation(
            #[trigger] ents[plan.after_timer - 1 + i],
            plan.after_timer + i,
            x0 + (i % gw) * grid_coverage(q),
            y0 + (i / gw) * grid_coverage(q),
            q,
        )
    &&& forall|g: int, j: int|
        0 <= g < k && 0 <= j < column_lamps_at(plan, w, h, args, g).placed.len() ==> {
            let st = column_lamps_at(plan, w, h, args, g);
            let gx = group_width(g, plan.mcg, w as int);
            is_grid_lamp(
                #[trigger] ents[column_lamp_base(plan, w, h, args, g) - 1 + j],
                column_lamp_base(plan, w, h, args, g) + j,
                g * plan.mcg + st.placed[j].1,
                st.placed[j].0,
                signals[st.placed[j].0 * gx + st.placed[j].1],
                args.gray_bits > 0,
            )
        }
}

/// Group numbers only grow from group to group.
proof fn lemma_column_base_mono(plan: ColumnPlan, w: u32, h: u32, args: BlueprintArgs, g1: int, g2: int)
    requires
        0 <= g1 <= g2,
        plan.chunks >= 0,
    ensures
        column_base(plan, w, h, args, g1) <= column_base(plan, w, h, args, g2),
    decreases g2 - g1,
{
    if g2 > g1 {
        lemma_column_base_mono(plan, w, h, args, g1, g2 - 1);
    }
}

/// Appending a group's helpers and data combinators, then its lamps,
/// extends the layout by that group.
proof fn lemma_column_entities_step(
    a0: Seq<Entity>,
    rest: Seq<Entity>,
    l: Seq<Entity>,
    plan: ColumnPlan,
    w: u32,
    h: u32,
    args: BlueprintArgs,
    g: int,
    signals: Seq<Signal>,
)
    requires
        0 <= g,
        plan.chunks >= 0,
        plan.after_timer >= 1,
        plan.n_subs >= 0,
        column_entities(a0, plan, w, h, args, g, signals),
        a0.len() == column_base(plan, w, h, args, g) - 1,
        a0.len() + rest.len() == column_lamp_base(plan, w, h, args, g) - 1,
        l.len() == column_lamps_at(plan, w, h, args, g).placed.len(),
        forall|j: int|
            0 <= j < l.len() ==> {
                let st = column_lamps_at(plan, w, h, args, g);
                let gx = group_width(g, plan.mcg, w as int);
                is_grid_lamp(
                    #[trigger] l[j],
                    column_lamp_base(plan, w, h, args, g) + j,
                    g * plan.mcg + st.placed[j].1,
                    st.placed[j].0,
                    signals[st.placed[j].0 * gx + st.placed[j].1],
                    args.gray_bits > 0,
                )
            },
    ensures
        column_entities(a0 + rest + l, plan, w, h, args, g + 1, signals),
{
    reveal(column_entities);
    let all = a0 + rest + l;
    let q = args.substation_quality@;
    let (gw, gh, x0, y0) = grid_layout(q, w as int, h as int, plan.rows);
    lemma_column_base_mono(plan, w, h, args, 0, g);
    assert forall|i: int| q != QUAL_NONE@ && 0 <= i < plan.n_subs implies is_grid_substation(
        #[trigger] all[plan.after_timer - 1 + i],
        plan.after_timer + i,
        x0 + (i % gw) * grid_coverage(q),
        y0 + (i / gw) * grid_coverage(q),
        q,
    ) by {
        assert(all[plan.after_timer - 1 + i] == a0[plan.after_timer - 1 + i]);
    }
    assert forall|g2: int, j: int|
        0 <= g2 < g + 1 && 0 <= j < column_lamps_at(plan, w, h, args, g2).placed.len() implies {
            let st = column_lamps_at(plan, w, h, args, g2);
            let gx = group_width(g2, plan.mcg, w as int);
            is_grid_lamp(
                #[trigger] all[column_lamp_base(plan, w, h, args, g2) - 1 + j],
                column_lamp_base(plan, w, h, args, g2) + j,
                g2 * plan.mcg + st.placed[j].1,
                st.placed[j].0,
                signals[st.placed[j].0 * gx + st.placed[j].1],
                args.gray_bits > 0,
            )
        } by {
        if g2 < g {
            let gx = group_width(g2, plan.mcg, w as int);
            lemma_grid_lamps_placed_any_base(gx * h, gx, g2 * plan.mcg, 0, plan.cells, args.horizontal_wires,
                column_lamp_base(plan, w, h, args, g2));
            lemma_column_base_mono(plan, w, h, args, g2 + 1, g);
            lemma_column_base_mono(plan, w, h, args, 0, g2);
            assert(column_base(plan, w, h, args, g2 + 1) == column_lamp_base(plan, w, h, args, g2)
                + column_group_lamps(plan, w, h, args, g2).placed.len());
            assert(column_lamp_base(plan, w, h, args, g2) - 1 + j < a0.len());
            assert(all[column_lamp_base(plan, w, h, args, g2) - 1 + j] == a0[column_lamp_base(plan, w, h, args, g2) - 1 + j]);
        } else {
            assert(all[column_lamp_base(plan, w, h, args, g2) - 1 + j] == l[j]);
        }
    }
}

/// Swapping wire colours leaves lamps and substations as they are.
proof fn lemma_column_entities_inverted(
    before: Seq<Entity>,
    after: Seq<Entity>,
    plan: ColumnPlan,
    w: u32,
    h: u32,
    args: BlueprintArgs,
    k: int,
    signals: Seq<Signal>,
)
    requires
        column_entities(before, plan, w, h, args, k, signals),
        after.len() == before.len(),
        forall|i: int| 0 <= i < before.len() ==> entity_inverted(#[trigger] before[i], after[i]),
        column_base(plan, w, h, args, k) - 1 <= before.len(),
        0 <= k,
        plan.chunks >= 0,
        plan.after_timer >= 1,
        plan.n_subs >= 0,
    ensures
        column_entities(after, plan, w, h, args, k, signals),
{
    reveal(column_entities);
    let q = args.substation_quality@;
    let (gw, gh, x0, y0) = grid_layout(q, w as int, h as int, plan.rows);
    lemma_column_base_mono(plan, w, h, args, 0, k);
    assert forall|i: int| q != QUAL_NONE@ && 0 <= i < plan.n_subs implies is_grid_substation(
        #[trigger] after[plan.after_timer - 1 + i],
        plan.after_timer + i,
        x0 + (i % gw) * grid_coverage(q),
        y0 + (i / gw) * grid_coverage(q),
        q,
    ) by {
        assert(entity_inverted(before[plan.after_timer - 1 + i], after[plan.after_timer - 1 + i]));
    }
    assert forall|g2: int, j: int|
        0 <= g2 < k && 0 <= j < column_lamps_at(plan, w, h, args, g2).placed.len() implies {
            let st = column_lamps_at(plan, w, h, args, g2);
            let gx = group_width(g2, plan.mcg, w as int);
            is_grid_lamp(
                #[trigger] after[column_lamp_base(plan, w, h, args, g2) - 1 + j],
                column_lamp_base(plan, w, h, args, g2) + j,
                g2 * plan.mcg + st.placed[j].1,
                st.placed[j].0,
                signals[st.placed[j].0 * gx + st.placed[j].1],
                args.gray_bits > 0,
            )
        } by {
        let gx = group_width(g2, plan.mcg, w as int);
        lemma_grid_lamps_placed_any_base(gx * h, gx, g2 * plan.mcg, 0, plan.cells, args.horizontal_wires,
            column_lamp_base(plan, w, h, args, g2));
        lemma_column_base_mono(plan, w, h, args, g2 + 1, k);
        lemma_column_base_mono(plan, w, h, args, 0, g2);
        assert(column_base(plan, w, h, args, g2 + 1) == column_lamp_base(plan, w, h, args, g2)
            + column_group_lamps(plan, w, h, args, g2).placed.len());
        let idx = column_lamp_base(plan, w, h, args, g2) - 1 + j;
        assert(0 <= idx < before.len());
        assert(entity_inverted(before[idx], after[idx]));
    }
}

/// The wires a group adds, as `generate_blueprint` gathers them.
proof fn lemma_column_wires_step(
    plan: ColumnPlan,
    w: u32,
    h: u32,
    args: BlueprintArgs,
    g: int,
    old_wires: Seq<Wire>,
    comb: Seq<Wire>,
    lamp_w: Seq<Wire>,
)
    requires
        0 <= g,
        old_wires == column_wires(plan, w, h, args, g),
        ({
            let base = column_base(plan, w, h, args, g);
            let first = base + n_helpers(args.delta_comp, args.gray_bits);
            let comb_out = if args.gray_bits > 0 {
                first - 1
            } else if args.delta_comp {
                base + 1
            } else {
                base
            };
            let lamp = column_lamp_base(plan, w, h, args, g) as u32;
            &&& comb == helper_wires(args.delta_comp, args.gray_bits, base) + column_comb_run(plan, w, h, args, g).wires
                + seq![[base as u32, WIRE_R, first as u32, WIRE_R]] + (if g == 0 {
                seq![[3u32, WIRE_OUT_R, base as u32, WIRE_R]]
            } else {
                Seq::empty()
            }) + seq![[lamp, WIRE_R, base as u32, WIRE_R], [lamp, WIRE_G, comb_out as u32, WIRE_OUT_G]]
            &&& lamp_w == column_lamps_at(plan, w, h, args, g).wires + (if g > 0 {
                seq![[lamp, WIRE_R, column_lamps_at(plan, w, h, args, g - 1).top_right, WIRE_R]]
            } else {
                Seq::empty()
            })
        }),
    ensures
        old_wires + comb + lamp_w == column_wires(plan, w, h, args, g + 1),
{
    assert(old_wires + comb + lamp_w =~= column_wires(plan, w, h, args, g) + column_group_wires(plan, w, h, args, g));
}

/// Once a group has stopped the layout, the first error stays.
proof fn lemma_groups_error_sticky(plan: ColumnPlan, w: u32, h: u32, args: BlueprintArgs, k: int, k2: int)
    requires
        0 <= k <= k2,
        column_groups_error(plan, w, h, args, k) is Some,
    ensures
        column_groups_error(plan, w, h, args, k2) == column_groups_error(plan, w, h, args, k),
    decreases k2 - k,
{
    if k2 > k {
        lemma_groups_error_sticky(plan, w, h, args, k, k2 - 1);
    }
}

/// Where lamps go does not depend on their numbers.
proof fn lemma_grid_lamps_placed_any_base(
    k: int,
    w: int,
    sx: int,
    sy: int,
    occupied: Seq<(i32, i32)>,
    horizontal: bool,
    base: int,
)
    ensures
        grid_lamps(k, w, sx, sy, occupied, horizontal, base).placed == grid_lamps(
            k,
            w,
            sx,
            sy,
            occupied,
            horizontal,
            0,
        ).placed,
    decreases k,
{
    if k > 0 {
        lemma_grid_lamps_placed_any_base(k - 1, w, sx, sy, occupied, horizontal, base);
    }
}

/// The column-layout blueprint, laid out, waiting for frames.
pub struct BlueprintBuild {
    name: String,
    all_ent: Vec<Entity>,
    all_wires: Vec<Wire>,
    data_combs: Vec<Vec<Entity>>,
    patch_states: Vec<GroupPatchState>,
    cfg: PatchConfig,
    signals: Vec<Signal>,
    n_groups: u32,
    max_cols_per_grp: u32,
    full_width: u32,
    full_height: u32,
}

impl BlueprintBuild {
    /// The progress of each group of lamps.
    pub closed spec fn spec_patch_states(&self) -> Seq<PatchSpecState> {
        self.patch_states@.map_values(|st: GroupPatchState| patch_state_view(st))
    }

    /// The settings that decide how frames are packed.
    pub closed spec fn spec_config(&self) -> PatchConfig {
        self.cfg
    }

    /// Number of groups, and columns of a full group.
    pub closed spec fn spec_groups(&self) -> (int, int) {
        (self.n_groups as int, self.max_cols_per_grp as int)
    }

    /// The size of the frames, in lamps.
    pub closed spec fn spec_dims(&self) -> (u32, u32) {
        (self.full_width, self.full_height)
    }

    /// The signals lamps are given.
    pub closed spec fn spec_signals(&self) -> Seq<Signal> {
        self.signals@
    }

    /// The entities, by entity number.
    pub closed spec fn spec_entities(&self) -> Seq<Entity> {
        self.all_ent@
    }

    /// The wires.
    pub closed spec fn spec_wires(&self) -> Seq<Wire> {
        self.all_wires@
    }

    /// The blueprint's name.
    pub closed spec fn spec_name(&self) -> Seq<char> {
        self.name@
    }

    /// The data combinators of each group, without data.
    pub closed spec fn spec_data_combs(&self) -> Seq<Seq<Entity>> {
        self.data_combs@.map_values(|v: Vec<Entity>| v@)
    }

    /// Consistent settings and state.
    pub closed spec fn wf(&self) -> bool {
        &&& self.data_combs@.len() == self.n_groups
        &&& self.patch_states@.len() == self.n_groups
        &&& 1 <= self.max_cols_per_grp
        &&& self.n_groups * self.max_cols_per_grp <= self.full_width
        &&& self.max_cols_per_grp * self.full_height <= self.signals@.len()
        &&& 1 <= self.full_width <= 0x7fff_ffff
        &&& 1 <= self.full_height <= 0x7fff_ffff
        &&& self.cfg.n_buf_frames >= 1
        &&& 1 <= self.cfg.frames_per_cb <= 32
        &&& self.cfg.gray_bits == 0 ==> self.cfg.frames_per_cb == 1
        &&& forall|g: int|
            0 <= g < self.n_groups ==> patch_ready(
                patch_state_view(#[trigger] self.patch_states@[g]),
                group_width(g, self.max_cols_per_grp as int, self.full_width as int)
                    * self.full_height,
                self.cfg,
            )
        &&& forall|i: int, j: int|
            0 <= i <= j < self.all_ent@.len() ==> self.all_ent@[i].entity_number
                <= self.all_ent@[j].entity_number
        &&& numbered_from_one(self.all_ent@)
        &&& self.all_ent@.len() < u32::MAX
    }
}

/// The number of substations on the fixed grid.
fn grid_count(q: &String, w: u32, h: u32, n_frames: u64) -> (r: Option<u64>)
    requires
        w <= 0x100_0000,
        h <= 0x100_0000,
    ensures
        n_frames > 0x100_0000 ==> r is None,
        n_frames <= 0x100_0000 ==> (r matches Some(c) && c == grid_layout(q@, w as int, h as int, n_frames as int).0
            * grid_layout(q@, w as int, h as int, n_frames as int).1),
{
    if n_frames > 0x100_0000 {
        return None;
    }
    let cov: i64 = if same_text(q, QUAL_UNCOMMON) {
        20
    } else if same_text(q, QUAL_RARE) {
        22
    } else if same_text(q, QUAL_EPIC) {
        24
    } else if same_text(q, QUAL_LEGENDARY) {
        28
    } else {
        18
    };
    let hc = (cov - 2) / 2;
    let f = n_frames as i64 - hc;
    let wl = w as i64 - hc;
    let hl = h as i64 - hc;
    let nfc: i64 = if f <= 0 {
        0
    } else {
        (f + cov - 3) / (cov - 2)
    };
    let width: i64 = (if wl <= 0 {
        0
    } else {
        (wl + cov - 1) / cov
    }) + 1;
    let height: i64 = (if hl <= 0 {
        0
    } else {
        (hl + cov - 1) / cov
    }) + 1 + nfc;
    proof {
        lemma_ceil_pos_bounds(wl as int, cov as int, cov as int);
        lemma_ceil_pos_bounds(hl as int, cov as int, cov as int);
        lemma_ceil_pos_bounds(f as int, cov as int, cov - 2);
        assert(nfc == frame_rows(n_frames as int, cov as int));
        assert((width * height) <= 0x20_0001 * 0x40_0002) by (nonlinear_arith)
            requires
                1 <= width <= 0x20_0001,
                1 <= height <= 0x40_0002,
        ;
    }
    Some((width * height) as u64)
}

/// The signals lamps are given, in order.
pub open spec fn build_signals(args: BlueprintArgs, list: Seq<SignalEntry>) -> Seq<Signal> {
    crate::blueprint::signals::all_signals(
        if args.sort_signals {
            crate::signals::entries_by_length(list)
        } else {
            list
        },
        crate::blueprint::signals::spec_qualities(args.use_dlc),
    )
}

/// `a / b` rounded up.
fn div_ceil_u32(a: u32, b: u32) -> (r: u32)
    requires
        b >= 1,
    ensures
        r == (a + b - 1) / (b as int),
{
    let q = a / b;
    let rem = a % b;
    proof {
        assert(q + (if rem != 0 { 1int } else { 0int }) == (a + b - 1) / (b as int)) by (nonlinear_arith)
            requires
                b >= 1,
                q == a / b,
                rem == a % b,
        ;
        assert(q + (if rem != 0 { 1int } else { 0int }) <= u32::MAX) by (nonlinear_arith)
            requires
                b >= 1,
                q == a / b,
                rem == a % b,
                a <= u32::MAX,
        ;
    }
    if rem != 0 {
        q + 1
    } else {
        q
    }
}

/// Lays out the column-layout blueprint for `n_frames` frames of
/// `full_width` by `full_height` pixels at `fps` frames per second: the
/// timer, the substation grid, and per group of lamps its combinators and
/// lamps; wires are swapped to green unless red is asked for. The data of
/// the frames is then filled in by `add_frame`.
///
/// No frames, or too few signals for one column of lamps, is an error; so
/// is a layout whose entity numbers would not fit, and a substation grid
/// over more than 2^24 tiles a side.
#[verifier::rlimit(100)]
pub fn generate_blueprint(
    n_frames: u32,
    fps: u32,
    full_width: u32,
    full_height: u32,
    args: &BlueprintArgs,
    signal_list: &Vec<SignalEntry>,
) -> (r: Result<BlueprintBuild, BlueprintError>)
    requires
        build_ok(n_frames, fps, full_width, full_height, *args),
        entries_fit(signal_list@),
        signal_list@.len() * 6 <= u32::MAX,
    ensures
        column_error(n_frames, fps, full_width, full_height, *args, signal_list@) matches Some(e) ==> r
            == Err::<BlueprintBuild, BlueprintError>(e),
        column_error(n_frames, fps, full_width, full_height, *args, signal_list@) is None ==> r is Ok,
        n_frames == 0 ==> r == Err::<BlueprintBuild, BlueprintError>(BlueprintError::NoSampledFrames),
        n_frames > 0 ==> ({
            let n_signals = build_signals(*args, signal_list@).len() as int;
            let by_signals = (n_signals as u32) / full_height;
            let m = if by_signals < full_width { by_signals as int } else { full_width as int };
            &&& m == 0 ==> r == Err::<BlueprintBuild, BlueprintError>(BlueprintError::NotEnoughSignals)
            &&& m > 0 ==> match r {
                Ok(b) => b.wf() && numbered_from_one(b.spec_entities()) && b.spec_dims() == (full_width, full_height) && b.spec_name() == args.name@ && b.spec_groups().0
                    == (full_width + m - 1) / m && b.spec_groups().1 == (full_width as int) / ((full_width + m - 1) / m),
                Err(e) => e is TooManyEntities || e is MissingEntity,
            }
        }),
        r matches Ok(b) ==> exists|t: Seq<Entity>|
            #[trigger] timer_with_stop(
                t,
                (n_frames * (60u32 / fps)) as u32,
                args.gray_bits,
                60u32 / fps,
                frames_per_comb(args.gray_bits) as u32,
            ) && t.len() <= b.spec_entities().len() && forall|i: int|
                0 <= i < t.len() ==> if args.green_wires {
                    b.spec_entities()[i] == #[trigger] t[i]
                } else {
                    entity_inverted(t[i], b.spec_entities()[i])
                },
        r matches Ok(b) ==> ({
            let plan = column_plan(n_frames, fps, full_width, full_height, *args, signal_list@);
            let wires = column_wires(plan, full_width, full_height, *args, plan.groups);
            &&& b.spec_entities().len() == column_base(plan, full_width, full_height, *args, plan.groups) - 1
            &&& column_entities(
                b.spec_entities(),
                plan,
                full_width,
                full_height,
                *args,
                plan.groups,
                build_signals(*args, signal_list@),
            )
            &&& b.spec_wires() == if args.green_wires {
                wires
            } else {
                wires.map_values(|w: Wire| spec_inverted_wire(w))
            }
        }),
{
    let ghost plan = column_plan(n_frames, fps, full_width, full_height, *args, signal_list@);
    let signals = crate::signals::get_signals_with_quality(args.use_dlc, args.sort_signals, signal_list);
    if n_frames == 0 {
        return Err(BlueprintError::NoSampledFrames);
    }
    proof {
        crate::blueprint::signals::lemma_all_signals_len(
            if args.sort_signals {
                crate::signals::entries_by_length(signal_list@)
            } else {
                signal_list@
            },
            crate::blueprint::signals::spec_qualities(args.use_dlc),
        );
    }
    let by_signals: u32 = (signals.len() as u32) / full_height;
    let m: u32 = if by_signals < full_width {
        by_signals
    } else {
        full_width
    };
    if m == 0 {
        return Err(BlueprintError::NotEnoughSignals);
    }
    let n_groups: u32 = div_ceil_u32(full_width, m);
    proof {
        assert(1 <= n_groups <= full_width) by (nonlinear_arith)
            requires
                1 <= m <= full_width,
                n_groups == (full_width + m - 1) / (m as int),
        ;
    }
    let mcg = full_width / n_groups;
    proof {
        assert(1 <= mcg) by (nonlinear_arith)
            requires
                1 <= n_groups <= full_width,
                mcg == (full_width as int) / (n_groups as int),
        ;
        assert(n_groups * mcg <= full_width) by (nonlinear_arith)
            requires
                n_groups >= 1,
                mcg == (full_width as int) / (n_groups as int),
        ;
        assert(mcg <= m) by (nonlinear_arith)
            requires
                n_groups >= 1,
                mcg == (full_width as int) / (n_groups as int),
                n_groups == (full_width + m - 1) / (m as int),
                m >= 1,
        ;
        assert(mcg * full_height <= signals@.len()) by (nonlinear_arith)
            requires
                mcg <= by_signals,
                by_signals == (signals@.len() as u32) / full_height,
                signals@.len() <= u32::MAX,
                full_height >= 1,
        ;
    }
    let gray_bits = args.gray_bits;
    let n_scaled_frames: u32 = n_frames * if args.time_comp_window > 0 {
        2
    } else {
        1
    };
    let fpc: u32 = if gray_bits > 0 {
        32 / gray_bits
    } else {
        1
    };
    proof {
        if gray_bits > 0 {
            assert(1 <= 32u32 / gray_bits <= 32) by (nonlinear_arith)
                requires
                    1 <= gray_bits <= 32,
            ;
            assert((32u32 / gray_bits) * gray_bits <= 32) by (nonlinear_arith)
                requires
                    gray_bits >= 1,
            ;
        }
    }
    let n_buf: u64 = if args.time_comp_window > 0 {
        proof {
            assert((args.time_comp_window as u64) * (fps as u64) <= u32::MAX * u32::MAX) by (nonlinear_arith);
            assert((args.time_comp_window as u64) * (fps as u64) >= 1) by (nonlinear_arith)
                requires
                    args.time_comp_window >= 1,
                    fps >= 1,
            ;
        }
        let num = (args.time_comp_window as u64) * (fps as u64);
        let den = 1000 * (fpc as u64);
        let q = num / den + if num % den != 0 {
            1
        } else {
            0
        };
        proof {
            assert(q >= 1) by (nonlinear_arith)
                requires
                    num >= 1,
                    den >= 1,
                    q == num / den + (if num % den != 0 { 1int } else { 0int }),
            ;
            assert(q == (num + den - 1) / (den as int)) by (nonlinear_arith)
                requires
                    den >= 1,
                    q == num / den + (if num % den != 0 { 1int } else { 0int }),
            ;
        }
        q
    } else {
        1
    };
    if n_buf > usize::MAX as u64 {
        return Err(BlueprintError::TooManyEntities);
    }
    let n_buf_frames = n_buf as usize;
    let max_rows: u32 = if mcg / 2 == 0 {
        u32::MAX
    } else {
        let per_col = div_ceil_u32(n_scaled_frames, mcg / 2);
        div_ceil_u32(per_col, fpc)
    };
    let tpf: u32 = 60 / fps;
    proof {
        assert(tpf * fpc <= 60 * 32) by (nonlinear_arith)
            requires
                tpf <= 60,
                fpc <= 32,
        ;
    }
    let stop = n_frames * tpf;
    let (mut all_ent, mut all_wires) = generate_timer(stop, gray_bits, tpf, fpc);
    let ghost timer_v = all_ent@;
    proof {
        assert(timer_with_stop(timer_v, stop, gray_bits, tpf, fpc));
    }
    let mut next_ent: u32 = if gray_bits > 0 {
        7
    } else {
        4
    };
    proof {
        assert(numbered_from_one(all_ent@));
    }
    let extra: u64 = if gray_bits == 1 || gray_bits == 4 {
        2
    } else if gray_bits == 8 {
        1
    } else {
        0
    };
    let frame_rows_n = max_rows as u64 + extra;
    let no_subs = same_text(&args.substation_quality, QUAL_NONE);
    // The substation grid is laid for sizes up to 2^24 tiles.
    if !no_subs && (full_width > 0x100_0000 || full_height > 0x100_0000) {
        return Err(BlueprintError::TooManyEntities);
    }
    let n_subs = if no_subs {
        Some(0u64)
    } else {
        grid_count(&args.substation_quality, full_width, full_height, frame_rows_n)
    };
    match n_subs {
        None => {
            return Err(BlueprintError::TooManyEntities);
        },
        Some(c) => {
            if c > (u32::MAX - next_ent) as u64 || (!no_subs && frame_rows_n > 0x100_0000) {
                return Err(BlueprintError::TooManyEntities);
            }
        },
    }
    let sub_rows: u32 = if no_subs {
        0
    } else {
        frame_rows_n as u32
    };
    let (mut subs, mut sub_wires, cells, new_next) = generate_substations(
        &args.substation_quality,
        full_width,
        full_height,
        sub_rows,
        next_ent,
    );
    let ghost before_subs = all_ent@;
    let ghost subs_v = subs@;
    next_ent = new_next;
    all_ent.append(&mut subs);
    proof {
        lemma_numbered_append(before_subs, subs_v);
        assert(all_ent@ =~= before_subs + subs_v);
        reveal(column_entities);
        let q = args.substation_quality@;
        let (gw, gh, x0, y0) = grid_layout(q, full_width as int, full_height as int, plan.rows);
        assert(!no_subs ==> sub_rows == plan.rows);
        assert forall|i: int| q != QUAL_NONE@ && 0 <= i < plan.n_subs implies is_grid_substation(
            #[trigger] all_ent@[plan.after_timer - 1 + i],
            plan.after_timer + i,
            x0 + (i % gw) * grid_coverage(q),
            y0 + (i / gw) * grid_coverage(q),
            q,
        ) by {
            assert(all_ent@[plan.after_timer - 1 + i] == subs_v[i]);
        }
        assert(column_entities(all_ent@, plan, full_width, full_height, *args, 0, signals@));
    }
    all_wires.append(&mut sub_wires);
    let mut occupied_y: Vec<i32> = Vec::new();
    let mut ci: usize = 0;
    while ci < cells.len()
        invariant
            0 <= ci <= cells@.len(),
            occupied_y@ == cell_rows(cells@.take(ci as int)),
        decreases cells@.len() - ci,
    {
        occupied_y.push(cells[ci].1);
        proof {
            assert(cells@.take(ci + 1) == cells@.take(ci as int).push(cells@[ci as int]));
            assert(cell_rows(cells@.take(ci + 1)) =~= cell_rows(cells@.take(ci as int)).push(cells@[ci as int].1));
        }
        ci += 1;
    }
    proof {
        assert(cells@.take(cells@.len() as int) =~= cells@);
    }
    let n_chunks: u64 = (n_scaled_frames / fpc) as u64 + if n_scaled_frames % fpc != 0 {
        1
    } else {
        0
    };
    proof {
        assert(n_chunks >= 1) by (nonlinear_arith)
            requires
                n_chunks == n_scaled_frames / fpc + (if n_scaled_frames % fpc != 0 { 1int } else { 0int }),
                n_scaled_frames >= 1,
                fpc >= 1,
        ;
        assert(n_chunks <= u32::MAX) by (nonlinear_arith)
            requires
                n_chunks == n_scaled_frames / fpc + (if n_scaled_frames % fpc != 0 { 1int } else { 0int }),
                n_scaled_frames <= u32::MAX,
                fpc >= 1,
        ;
        assert(n_chunks == (n_scaled_frames + fpc - 1) / (fpc as int)) by (nonlinear_arith)
            requires
                n_chunks == n_scaled_frames / fpc + (if n_scaled_frames % fpc != 0 { 1int } else { 0int }),
                fpc >= 1,
        ;
        assert(fpc == plan.fpc);
        assert(n_scaled_frames == plan.scaled);
    }
    let base_y: i64 = if gray_bits == 1 || gray_bits == 4 {
        -10
    } else if gray_bits == 8 {
        -8
    } else {
        -6
    };
    let mut data_combs: Vec<Vec<Entity>> = Vec::new();
    let mut prev_top_right: Option<u32> = None;
    let mut g: u32 = 0;
    while g < n_groups
        invariant
            0 <= g <= n_groups,
            n_groups * mcg <= full_width,
            1 <= mcg,
            mcg * full_height <= signals@.len(),
            1 <= full_width <= 0x7fff_ffff,
            1 <= full_height <= 0x7fff_ffff,
            1 <= n_chunks <= u32::MAX,
            4 <= next_ent,
            data_combs@.len() == g,
            base_y == -10 || base_y == -8 || base_y == -6,
            n_frames > 0,
            numbered_from_one(all_ent@),
            next_ent == all_ent@.len() + 1,
            signals@ == build_signals(*args, signal_list@),
            by_signals == (signals@.len() as u32) / full_height,
            m == (if by_signals < full_width { by_signals } else { full_width }),
            m > 0,
            plan == column_plan(n_frames, fps, full_width, full_height, *args, signal_list@),
            n_groups == plan.groups,
            mcg == plan.mcg,
            n_chunks == plan.chunks,
            cells@ == plan.cells,
            next_ent == column_base(plan, full_width, full_height, *args, g as int),
            column_groups_error(plan, full_width, full_height, *args, g as int) is None,
            column_error(n_frames, fps, full_width, full_height, *args, signal_list@)
                == column_groups_error(plan, full_width, full_height, *args, plan.groups),
            occupied_y@ == cell_rows(plan.cells),
            max_rows == self::max_rows(plan.scaled, plan.mcg, plan.fpc),
            base_y == helper_base_y(gray_bits),
            gray_bits == args.gray_bits,
            all_wires@ == column_wires(plan, full_width, full_height, *args, g as int),
            prev_top_right == (if g == 0 {
                None
            } else {
                Some(column_lamps_at(plan, full_width, full_height, *args, g - 1).top_right)
            }),
            column_entities(all_ent@, plan, full_width, full_height, *args, g as int, signals@),
            timer_with_stop(timer_v, stop, gray_bits, tpf, fpc),
            stop == n_frames * tpf,
            tpf == 60u32 / fps,
            fpc == frames_per_comb(args.gray_bits),
            timer_v.len() <= all_ent@.len(),
            forall|i: int| 0 <= i < timer_v.len() ==> all_ent@[i] == #[trigger] timer_v[i],
        decreases n_groups - g,
    {
        proof {
            assert(g * mcg + mcg <= full_width) by (nonlinear_arith)
                requires
                    g < n_groups,
                    n_groups * mcg <= full_width,
            ;
        }
        let grp_left = g * mcg;
        let width = if mcg < full_width - grp_left {
            mcg
        } else {
            full_width - grp_left
        };
        proof {
            assert(width == group_width(g as int, plan.mcg, full_width as int));
        }
        if (next_ent as u64) + 5 + n_chunks > u32::MAX as u64 {
            proof {
                assert(column_group_error(plan, full_width, full_height, *args, g as int)
                    == Some(BlueprintError::TooManyEntities));
                assert(column_groups_error(plan, full_width, full_height, *args, g + 1)
                    == Some(BlueprintError::TooManyEntities));
                lemma_groups_error_sticky(plan, full_width, full_height, *args, g + 1, plan.groups);
            }
            return Err(BlueprintError::TooManyEntities);
        }
        let ghost base_g = next_ent;
        let (mut other, data, mut comb_wires, (in_ent, out_ent, after_combs)) = mk_frame_combs(
            n_chunks,
            &occupied_y,
            next_ent,
            2 * (grp_left as i64) + 1,
            base_y,
            max_rows,
            args,
        );
        proof {
            lemma_fixed_helpers_numbered(
                other@,
                args.delta_comp,
                args.gray_bits,
                base_g as int,
                2 * (grp_left as i64) + 1,
                base_y as int,
            );
        }
        let ghost mk_w = comb_wires@;
        proof {
            assert(mk_w == helper_wires(args.delta_comp, args.gray_bits, base_g as int) + column_comb_run(
                plan,
                full_width,
                full_height,
                *args,
                g as int,
            ).wires + seq![[base_g, WIRE_R, (base_g + n_helpers(args.delta_comp, args.gray_bits)) as u32, WIRE_R]]);
        }
        next_ent = after_combs;
        if g == 0 {
            // The timer's output drives the first group.
            comb_wires.push([3, WIRE_OUT_R, in_ent, WIRE_R]);
        }
        let ghost linked_w = comb_wires@;
        proof {
            assert(linked_w =~= mk_w + (if g == 0 {
                seq![[3u32, WIRE_OUT_R, base_g, WIRE_R]]
            } else {
                Seq::<Wire>::empty()
            }));
        }
        proof {
            assert(width * full_height <= signals@.len()) by (nonlinear_arith)
                requires
                    width <= mcg,
                    mcg * full_height <= signals@.len(),
            ;
            assert(width * full_height <= 0x7fff_ffff * 0x7fff_ffffu64) by (nonlinear_arith)
                requires
                    width <= 0x7fff_ffff,
                    full_height <= 0x7fff_ffff,
            ;
        }
        if (next_ent as u64) + (width as u64) * (full_height as u64) > u32::MAX as u64 {
            proof {
                assert(column_group_error(plan, full_width, full_height, *args, g as int)
                    == Some(BlueprintError::TooManyEntities));
                assert(column_groups_error(plan, full_width, full_height, *args, g + 1)
                    == Some(BlueprintError::TooManyEntities));
                lemma_groups_error_sticky(plan, full_width, full_height, *args, g + 1, plan.groups);
            }
            return Err(BlueprintError::TooManyEntities);
        }
        let ghost lamp_base = next_ent;
        let (mut lamps, mut lamp_wires, after_lamps, top_right) = generate_lamps(
            signals.as_slice(),
            width,
            full_height,
            &cells,
            next_ent,
            grp_left as i32,
            0,
            gray_bits > 0,
            args.horizontal_wires,
        );
        proof {
            lemma_grid_lamps_avoid_occupied(
                width * full_height,
                width as int,
                grp_left as int,
                0,
                cells@,
                args.horizontal_wires,
                lamp_base as int,
            );
            lemma_grid_lamps_placed_any_base(
                width * full_height,
                width as int,
                grp_left as int,
                0,
                cells@,
                args.horizontal_wires,
                lamp_base as int,
            );
            assert(lamps@.len() == column_group_lamps(plan, full_width, full_height, *args, g as int).placed.len());
        }
        next_ent = after_lamps;
        if lamps.len() == 0 || next_ent < 4 {
            proof {
                assert(column_group_error(plan, full_width, full_height, *args, g as int)
                    == Some(BlueprintError::MissingEntity));
                assert(column_groups_error(plan, full_width, full_height, *args, g + 1)
                    == Some(BlueprintError::MissingEntity));
                lemma_groups_error_sticky(plan, full_width, full_height, *args, g + 1, plan.groups);
            }
            return Err(BlueprintError::MissingEntity);
        }
        proof {
            assert(column_group_error(plan, full_width, full_height, *args, g as int) is None);
            assert(column_groups_error(plan, full_width, full_height, *args, g + 1) is None);
            assert(next_ent == column_base(plan, full_width, full_height, *args, g + 1));
        }
        let first_lamp = lamps[0].entity_number;
        let ghost lamp_w0 = lamp_wires@;
        comb_wires.push([first_lamp, WIRE_R, in_ent, WIRE_R]);
        comb_wires.push([first_lamp, WIRE_G, out_ent, WIRE_OUT_G]);
        // The first lamp of a group joins the top right lamp of the one before.
        match prev_top_right {
            Some(p) => {
                lamp_wires.push([first_lamp, WIRE_R, p, WIRE_R]);
            },
            None => {},
        }
        proof {
            assert(first_lamp == lamp_base);
            assert(lamp_base == column_lamp_base(plan, full_width, full_height, *args, g as int));
            assert(lamp_w0 == column_lamps_at(plan, full_width, full_height, *args, g as int).wires);
            assert(comb_wires@ =~= linked_w + seq![[first_lamp, WIRE_R, in_ent, WIRE_R], [first_lamp, WIRE_G, out_ent, WIRE_OUT_G]]);
            assert(lamp_wires@ =~= lamp_w0 + (if g > 0 {
                seq![[first_lamp, WIRE_R, column_lamps_at(plan, full_width, full_height, *args, g - 1).top_right, WIRE_R]]
            } else {
                Seq::<Wire>::empty()
            }));
            lemma_column_wires_step(plan, full_width, full_height, *args, g as int, all_wires@, comb_wires@, lamp_wires@);
        }
        prev_top_right = Some(top_right);
        let mut templates: Vec<Entity> = Vec::new();
        let mut di: usize = 0;
        while di < data.len()
            invariant
                0 <= di <= data@.len(),
                forall|k: int| 0 <= k < data@.len() ==> (#[trigger] data@[k]).control_behavior is None,
                templates@ == data@.take(di as int),
            decreases data@.len() - di,
        {
            templates.push(data[di].copy_plain());
            proof {
                assert(templates@ =~= data@.take(di + 1));
            }
            di += 1;
        }
        data_combs.push(templates);
        let mut data = data;
        let ghost a0 = all_ent@;
        let ghost o = other@;
        let ghost d = data@;
        let ghost l = lamps@;
        proof {
            lemma_grid_lamps_avoid_occupied(
                width * full_height,
                width as int,
                grp_left as int,
                0,
                cells@,
                args.horizontal_wires,
                lamp_base as int,
            );
            lemma_numbered_append(a0, o);
            lemma_numbered_append(a0 + o, d);
            lemma_numbered_append(a0 + o + d, l);
        }
        all_ent.append(&mut other);
        all_ent.append(&mut data);
        all_ent.append(&mut lamps);
        proof {
            assert(all_ent@ =~= a0 + o + d + l);
            assert(all_ent@[(a0.len() + o.len() + d.len()) as int] == l[0]);
            assert(a0 + o + d + l =~= a0 + (o + d) + l);
            lemma_column_entities_step(a0, o + d, l, plan, full_width, full_height, *args, g as int, signals@);
        }
        let ghost w_before = all_wires@;
        let ghost comb_wires_v = comb_wires@;
        let ghost lamp_wires_v = lamp_wires@;
        all_wires.append(&mut comb_wires);
        all_wires.append(&mut lamp_wires);
        proof {
            assert(all_wires@ =~= w_before + comb_wires_v + lamp_wires_v);
        }
        g += 1;
    }
    let ghost laid_wires = all_wires@;
    proof {
        assert(all_ent@.len() == column_base(plan, full_width, full_height, *args, plan.groups) - 1);
    }
    if !args.green_wires {
        let ghost before_inv = all_ent@;
        invert_wires(&mut all_ent, &mut all_wires);
        proof {
            assert forall|i: int| 0 <= i < all_ent@.len() implies (#[trigger] all_ent@[i]).entity_number
                == i + 1 by {
                assert(entity_inverted(before_inv[i], all_ent@[i]));
            }
            lemma_column_entities_inverted(
                before_inv,
                all_ent@,
                plan,
                full_width,
                full_height,
                *args,
                plan.groups,
                signals@,
            );
        }
    }
    let ghost numbered = all_ent@;
    proof {
        assert(timer_v.len() <= numbered.len());
        assert forall|i: int| 0 <= i < timer_v.len() implies (if args.green_wires {
            numbered[i] == #[trigger] timer_v[i]
        } else {
            entity_inverted(timer_v[i], numbered[i])
        }) by {}
        assert forall|i: int, j: int| 0 <= i <= j < numbered.len() implies numbered[i].entity_number
            <= numbered[j].entity_number by {
            assert(numbered[i].entity_number == i + 1);
            assert(numbered[j].entity_number == j + 1);
        }
    }
    let all_ent = sort_by_entity_number(all_ent);
    let mut patch_states: Vec<GroupPatchState> = Vec::new();
    let mut k: u32 = 0;
    while k < n_groups
        invariant
            0 <= k <= n_groups,
            patch_states@.len() == k,
            forall|q: int|
                0 <= q < k ==> (#[trigger] patch_states@[q]).chunk_i == 0
                    && patch_states@[q].frame_buf@.len() == 0 && patch_states@[q].sig_buf@.len() == 0,
        decreases n_groups - k,
    {
        patch_states.push(GroupPatchState { chunk_i: 0, frame_buf: Vec::new(), sig_buf: Vec::new() });
        k += 1;
    }
    let cfg = PatchConfig {
        gray_bits,
        frames_per_cb: fpc,
        use_delta_comp: args.delta_comp,
        n_buf_frames,
        n_frames_per_chunk: if n_buf_frames > 1 {
            1
        } else {
            0
        },
        ticks_per_grp: tpf * fpc,
    };
    proof {
        assert forall|q: int| 0 <= q < n_groups implies patch_ready(
            patch_state_view(#[trigger] patch_states@[q]),
            group_width(q, mcg as int, full_width as int) * full_height,
            cfg,
        ) by {
            assert(rasters_view(patch_states@[q].frame_buf@) =~= Seq::<Seq<u8>>::empty());
            assert(crate::blueprint::blueprint::sigs_view(patch_states@[q].sig_buf@) =~= Seq::<Seq<i32>>::empty());
        }
    }
    Ok(
        BlueprintBuild {
            name: args.name.clone(),
            all_ent,
            all_wires,
            data_combs,
            patch_states,
            cfg,
            signals,
            n_groups,
            max_cols_per_grp: mcg,
            full_width,
            full_height,
        },
    )
}


/// Where the entity numbered `target` sits among entities sorted by number.
fn find_entity(ents: &Vec<Entity>, target: u32) -> (r: Option<usize>)
    requires
        forall|i: int, j: int|
            0 <= i <= j < ents@.len() ==> ents@[i].entity_number <= ents@[j].entity_number,
    ensures
        r matches Some(i) ==> i < ents@.len() && ents@[i as int].entity_number == target,
        r is None ==> forall|i: int| 0 <= i < ents@.len() ==> ents@[i].entity_number != target,
{
    let mut lo: usize = 0;
    let mut hi: usize = ents.len();
    while lo < hi
        invariant
            0 <= lo <= hi <= ents@.len(),
            forall|i: int, j: int|
                0 <= i <= j < ents@.len() ==> ents@[i].entity_number <= ents@[j].entity_number,
            forall|i: int| 0 <= i < lo ==> ents@[i].entity_number < target,
            forall|i: int| hi <= i < ents@.len() ==> ents@[i].entity_number > target,
        decreases hi - lo,
    {
        let mid = lo + (hi - lo) / 2;
        let n = ents[mid].entity_number;
        if n == target {
            return Some(mid);
        } else if n < target {
            lo = mid + 1;
        } else {
            hi = mid;
        }
    }
    None
}

impl BlueprintBuild {
    /// Hands one frame (one byte per pixel for grayscale, three for colour,
    /// row by row) to every group of lamps in turn; each data combinator a
    /// group completes replaces the entity of the same number.
    ///
    /// A group whose next chunk would need a data combinator that was never
    /// placed, or ticks past the largest count, is refused with
    /// `MissingEntity`.
    pub fn add_frame(&mut self, frame: &Raster, is_last_frame: bool) -> (r: Result<(), BlueprintError>)
        requires
            old(self).wf(),
            frame.wf(frame_channels(old(self).spec_config().gray_bits)),
            (frame.width, frame.height) == old(self).spec_dims(),
        ensures
            final(self).spec_dims() == old(self).spec_dims(),
            final(self).spec_config() == old(self).spec_config(),
            final(self).spec_groups() == old(self).spec_groups(),
            final(self).spec_signals() == old(self).spec_signals(),
            final(self).spec_wires() == old(self).spec_wires(),
            r is Ok <==> forall|g: int|
                0 <= g < old(self).spec_groups().0 ==> (#[trigger] frame_group_error(
                    old(self).spec_patch_states(),
                    *frame,
                    old(self).spec_groups().1,
                    is_last_frame,
                    old(self).spec_config(),
                    old(self).spec_signals(),
                    old(self).spec_data_combs(),
                    old(self).spec_entities().len() as int,
                    g,
                )) is None,
            r matches Err(e) ==> exists|g: int|
                0 <= g < old(self).spec_groups().0 && #[trigger] frame_group_error(
                    old(self).spec_patch_states(),
                    *frame,
                    old(self).spec_groups().1,
                    is_last_frame,
                    old(self).spec_config(),
                    old(self).spec_signals(),
                    old(self).spec_data_combs(),
                    old(self).spec_entities().len() as int,
                    g,
                ) == Some(e) && forall|h: int|
                    0 <= h < g ==> (#[trigger] frame_group_error(
                        old(self).spec_patch_states(),
                        *frame,
                        old(self).spec_groups().1,
                        is_last_frame,
                        old(self).spec_config(),
                        old(self).spec_signals(),
                        old(self).spec_data_combs(),
                        old(self).spec_entities().len() as int,
                        h,
                    )) is None,
            r is Ok ==> {
                &&& final(self).wf()
                &&& numbered_from_one(final(self).spec_entities())
                &&& final(self).spec_entities().len() == old(self).spec_entities().len()
                &&& forall|i: int|
                    0 <= i < old(self).spec_entities().len() ==> (#[trigger] final(self).spec_entities()[i]).entity_number
                        == old(self).spec_entities()[i].entity_number
                &&& exists|p: Seq<Entity>|
                    #[trigger] frame_written(
                        Seq::empty(),
                        p,
                        old(self).spec_patch_states(),
                        *frame,
                        old(self).spec_groups().1,
                        is_last_frame,
                        old(self).spec_config(),
                        old(self).spec_signals(),
                        old(self).spec_data_combs(),
                        old(self).spec_groups().0,
                    ) && final(self).spec_entities() == entities_replaced(old(self).spec_entities(), p)
                &&& forall|g: int|
                    0 <= g < old(self).spec_groups().0 ==> #[trigger] final(self).spec_patch_states()[g]
                        == patch_spec(
                        old(self).spec_patch_states()[g],
                        group_image(
                            *frame,
                            old(self).spec_config().gray_bits,
                            g,
                            old(self).spec_groups().1,
                        ),
                        group_width(g, old(self).spec_groups().1, old(self).spec_dims().0 as int)
                            * old(self).spec_dims().1,
                        is_last_frame,
                        old(self).spec_config(),
                        old(self).spec_signals(),
                    ).st
            },
    {
        let gray_bits = self.cfg.gray_bits;
        let channels: u32 = if gray_bits > 0 {
            1
        } else {
            3
        };
        let cfg = PatchConfig {
            gray_bits,
            frames_per_cb: self.cfg.frames_per_cb,
            use_delta_comp: self.cfg.use_delta_comp,
            n_buf_frames: self.cfg.n_buf_frames,
            n_frames_per_chunk: self.cfg.n_frames_per_chunk,
            ticks_per_grp: self.cfg.ticks_per_grp,
        };
        let ghost old_states = self.spec_patch_states();
        let ghost ents0 = self.all_ent@;
        let ghost mut acc: Seq<Entity> = Seq::empty();
        let mut group_i: u32 = 0;
        while group_i < self.n_groups
            invariant
                self.wf(),
                self.full_width == old(self).full_width,
                self.full_height == old(self).full_height,
                self.n_groups == old(self).n_groups,
                self.max_cols_per_grp == old(self).max_cols_per_grp,
                self.signals@ == old(self).signals@,
                self.cfg == old(self).cfg,
                self.all_wires@ == old(self).all_wires@,
                cfg == self.cfg,
                channels == frame_channels(gray_bits),
                gray_bits == self.cfg.gray_bits,
                frame.wf(channels as int),
                frame.width == self.full_width,
                frame.height == self.full_height,
                0 <= group_i <= self.n_groups,
                ents0 == old(self).all_ent@,
                self.all_ent@.len() == ents0.len(),
                forall|i: int|
                    0 <= i < ents0.len() ==> (#[trigger] self.all_ent@[i]).entity_number
                        == ents0[i].entity_number,
                self.data_combs@ == old(self).data_combs@,
                forall|h: int|
                    0 <= h < group_i ==> (#[trigger] frame_group_error(
                        old_states,
                        *frame,
                        self.max_cols_per_grp as int,
                        is_last_frame,
                        cfg,
                        self.signals@,
                        old(self).spec_data_combs(),
                        ents0.len() as int,
                        h,
                    )) is None,
                frame_written(
                    Seq::empty(),
                    acc,
                    old_states,
                    *frame,
                    self.max_cols_per_grp as int,
                    is_last_frame,
                    cfg,
                    self.signals@,
                    old(self).spec_data_combs(),
                    group_i as int,
                ),
                self.all_ent@ == entities_replaced(ents0, acc),
                self.spec_patch_states().len() == old_states.len(),
                old_states == old(self).spec_patch_states(),
                forall|g: int|
                    0 <= g < group_i ==> #[trigger] self.spec_patch_states()[g] == patch_spec(
                        old_states[g],
                        group_image(*frame, gray_bits, g, self.max_cols_per_grp as int),
                        group_width(g, self.max_cols_per_grp as int, self.full_width as int)
                            * self.full_height,
                        is_last_frame,
                        cfg,
                        self.signals@,
                    ).st,
                forall|g: int|
                    group_i <= g < self.n_groups ==> #[trigger] self.spec_patch_states()[g]
                        == old_states[g],
            decreases self.n_groups - group_i,
        {
            let gi = group_i as usize;
            proof {
                assert(group_i * self.max_cols_per_grp + self.max_cols_per_grp <= self.full_width) by (nonlinear_arith)
                    requires
                        group_i < self.n_groups,
                        self.n_groups * self.max_cols_per_grp <= self.full_width,
                ;
            }
            let grp_left = group_i * self.max_cols_per_grp;
            let grp_width = if self.max_cols_per_grp < self.full_width - grp_left {
                self.max_cols_per_grp
            } else {
                self.full_width - grp_left
            };
            let img = crop(frame, channels, grp_left, 0, grp_width, self.full_height);
            let ghost n = group_width(group_i as int, self.max_cols_per_grp as int, self.full_width as int) * self.full_height;
            proof {
                assert(img.width == grp_width);
                assert(img.height == self.full_height);
                assert(n == img.width * img.height);
                assert(img.data@ == group_image(*frame, gray_bits, group_i as int, self.max_cols_per_grp as int));
                assert(grp_width * self.full_height <= self.signals@.len()) by (nonlinear_arith)
                    requires
                        grp_width <= self.max_cols_per_grp,
                        self.max_cols_per_grp * self.full_height <= self.signals@.len(),
                ;
            }
            let ghost before = self.patch_states@;
            let ghost states_before = self.spec_patch_states();
            let ghost st0 = old_states[group_i as int];
            proof {
                assert(self.spec_patch_states()[group_i as int] == patch_state_view(before[gi as int]));
            }
            let mut st = self.patch_states.remove(gi);
            proof {
                assert(st == before[gi as int]);
                assert(patch_state_view(st) == st0);
            }
            let n_combs = self.data_combs[gi].len();
            let fits = chunk_fits_exec(
                st.chunk_i,
                st.sig_buf.len(),
                cfg.n_buf_frames,
                cfg.n_frames_per_chunk,
                cfg.ticks_per_grp,
                n_combs,
                cfg.use_delta_comp,
            );
            let ghost fge = frame_group_error(
                old_states,
                *frame,
                self.max_cols_per_grp as int,
                is_last_frame,
                cfg,
                self.signals@,
                old(self).spec_data_combs(),
                ents0.len() as int,
                group_i as int,
            );
            proof {
                assert(n_combs == old(self).spec_data_combs()[group_i as int].len());
                assert(fits == ((st0.chunk_i + 1) * cfg.n_buf_frames <= u32::MAX && chunk_fits(
                    st0,
                    cfg,
                    n_combs as int,
                )));
            }
            if !fits {
                proof {
                    assert(fge == Some(BlueprintError::MissingEntity));
                }
                return Err(BlueprintError::MissingEntity);
            }
            proof {
                assert(chunk_fits(st0, cfg, n_combs as int));
                lemma_windows_fit(st0, img.data@, n, is_last_frame, cfg, self.signals@, n_combs as int);
            }
            let ghost img_n = (img.width * img.height) as int;
            let mut written: Vec<Entity> = Vec::new();
            let ghost combs_g = self.data_combs@[gi as int]@;
            let res = patch_group(
                &mut st,
                img,
                is_last_frame,
                &cfg,
                &self.data_combs[gi],
                self.signals.as_slice(),
                &mut written,
            );
            match res {
                Ok(()) => {},
                Err(e) => {
                    proof {
                        assert(fge == Some(e));
                    }
                    return Err(e);
                },
            }
            proof {
                assert(img_n == n);
                lemma_patch_ready_kept(st0, group_image(*frame, gray_bits, group_i as int, self.max_cols_per_grp as int), n, is_last_frame, cfg, self.signals@);
            }
            self.patch_states.insert(gi, st);
            proof {
                assert(self.patch_states@ =~= before.update(gi as int, st));
                assert forall|g: int| 0 <= g < self.n_groups implies #[trigger] self.spec_patch_states()[g]
                    == if g < group_i + 1 {
                    patch_spec(
                        old_states[g],
                        group_image(*frame, gray_bits, g, self.max_cols_per_grp as int),
                        group_width(g, self.max_cols_per_grp as int, self.full_width as int)
                            * self.full_height,
                        is_last_frame,
                        cfg,
                        self.signals@,
                    ).st
                } else {
                    old_states[g]
                } by {
                    if g != gi {
                        assert(self.patch_states@[g] == before[g]);
                        assert(self.spec_patch_states()[g] == patch_state_view(before[g]));
                        assert(states_before[g] == patch_state_view(before[g]));
                    } else {
                        assert(self.spec_patch_states()[g] == patch_state_view(st));
                    }
                }
                assert forall|g: int| 0 <= g < self.n_groups implies patch_ready(
                    patch_state_view(#[trigger] self.patch_states@[g]),
                    group_width(g, self.max_cols_per_grp as int, self.full_width as int)
                        * self.full_height,
                    self.cfg,
                ) by {
                    if g != gi {
                        assert(self.patch_states@[g] == before[g]);
                    }
                }
            }
            let ghost ps_before = self.patch_states@;
            let ghost sp = self.spec_patch_states();
            let ghost w = written@;
            let ghost ents_before = self.all_ent@;
            proof {
                assert(combs_g == old(self).spec_data_combs()[group_i as int]);
                lemma_windows_written_shift(
                    acc,
                    w,
                    group_windows(old_states, *frame, self.max_cols_per_grp as int, is_last_frame, cfg, self.signals@, group_i as int),
                    combs_g,
                );
                lemma_frame_written_step(
                    Seq::empty(),
                    acc,
                    acc + w,
                    old_states,
                    *frame,
                    self.max_cols_per_grp as int,
                    is_last_frame,
                    cfg,
                    self.signals@,
                    old(self).spec_data_combs(),
                    group_i as int,
                );
            }
            proof {
                lemma_written_numbers(
                    w,
                    group_windows(old_states, *frame, self.max_cols_per_grp as int, is_last_frame, cfg, self.signals@, group_i as int),
                    combs_g,
                    ents0.len() as int,
                );
            }
            match self.replace_entities(written) {
                Ok(()) => {},
                Err(e) => {
                    proof {
                        assert(fge == Some(BlueprintError::MissingEntity));
                    }
                    return Err(e);
                },
            }
            proof {
                assert(fge is None);
                assert(self.patch_states@ == ps_before);
                assert(self.spec_patch_states() =~= sp);
                lemma_entities_replaced_concat(ents0, acc, w);
                acc = acc + w;
            }
            group_i += 1;
        }
        proof {
            assert(frame_written(
                Seq::empty(),
                acc,
                old(self).spec_patch_states(),
                *frame,
                old(self).spec_groups().1,
                is_last_frame,
                old(self).spec_config(),
                old(self).spec_signals(),
                old(self).spec_data_combs(),
                old(self).spec_groups().0,
            ));
        }
        Ok(())
    }

    /// Puts each of `written`, in order, in place of the entity of the same
    /// number.
    fn replace_entities(&mut self, written: Vec<Entity>) -> (r: Result<(), BlueprintError>)
        requires
            old(self).wf(),
        ensures
            final(self).wf(),
            final(self).all_ent@.len() == old(self).all_ent@.len(),
            forall|i: int|
                0 <= i < old(self).all_ent@.len() ==> (#[trigger] final(self).all_ent@[i]).entity_number
                    == old(self).all_ent@[i].entity_number,
            final(self).patch_states == old(self).patch_states,
            final(self).data_combs == old(self).data_combs,
            final(self).all_wires == old(self).all_wires,
            final(self).signals == old(self).signals,
            final(self).cfg == old(self).cfg,
            final(self).n_groups == old(self).n_groups,
            final(self).max_cols_per_grp == old(self).max_cols_per_grp,
            final(self).full_width == old(self).full_width,
            final(self).full_height == old(self).full_height,
            r matches Err(e) ==> e is MissingEntity,
            r is Ok <==> numbers_in_range(old(self).all_ent@.len() as int, written@),
            r is Ok ==> final(self).all_ent@ == entities_replaced(old(self).all_ent@, written@),
    {
        let ghost w0 = written@;
        let mut rest = written;
        let ghost ents0 = self.all_ent@;
        let ghost mut done: int = 0;
        while rest.len() > 0
            invariant
                self.wf(),
                0 <= done <= w0.len(),
                w0 == written@,
                rest@ == w0.skip(done),
                self.all_ent@ == entities_replaced(ents0, w0.take(done)),
                numbers_in_range(ents0.len() as int, w0.take(done)),
                self.all_ent@.len() == ents0.len(),
                ents0 == old(self).all_ent@,
                forall|i: int|
                    0 <= i < ents0.len() ==> (#[trigger] self.all_ent@[i]).entity_number
                        == ents0[i].entity_number,
                self.patch_states == old(self).patch_states,
                self.data_combs == old(self).data_combs,
                self.all_wires == old(self).all_wires,
                self.signals == old(self).signals,
                self.cfg == old(self).cfg,
                self.n_groups == old(self).n_groups,
                self.max_cols_per_grp == old(self).max_cols_per_grp,
                self.full_width == old(self).full_width,
                self.full_height == old(self).full_height,
            decreases rest@.len(),
        {
            proof {
                assert(w0.skip(done)[0] == w0[done]);
            }
            let e = rest.remove(0);
            proof {
                assert(rest@ =~= w0.skip(done + 1));
                assert(w0.take(done + 1).drop_last() =~= w0.take(done));
                assert(w0.take(done + 1).last() == e);
                lemma_entities_replaced_len(ents0, w0.take(done));
            }
            match find_entity(&self.all_ent, e.entity_number) {
                Some(i) => {
                    let ghost prev = self.all_ent@;
                    proof {
                        assert(prev[i as int].entity_number == i + 1);
                    }
                    self.all_ent.set(i, e);
                    proof {
                        assert(self.all_ent@ == entities_replaced(ents0, w0.take(done + 1)));
                        assert forall|k: int| 0 <= k < w0.take(done + 1).len() implies 1 <= (
                        #[trigger] w0.take(done + 1)[k]).entity_number <= ents0.len() by {
                            if k < done {
                                assert(w0.take(done + 1)[k] == w0.take(done)[k]);
                            }
                        }
                        done = done + 1;
                        assert forall|a: int| 0 <= a < ents0.len() implies (#[trigger] self.all_ent@[a]).entity_number
                            == ents0[a].entity_number by {
                            if a != i {
                                assert(self.all_ent@[a] == prev[a]);
                            }
                        }
                        assert forall|a: int, b: int|
                            0 <= a <= b < self.all_ent@.len() implies self.all_ent@[a].entity_number
                                <= self.all_ent@[b].entity_number by {
                            assert(self.all_ent@[a].entity_number == ents0[a].entity_number);
                            assert(self.all_ent@[b].entity_number == ents0[b].entity_number);
                            assert(prev[a].entity_number == ents0[a].entity_number);
                            assert(prev[b].entity_number == ents0[b].entity_number);
                        }
                    }
                },
                None => {
                    proof {
                        if 1 <= e.entity_number <= self.all_ent@.len() {
                            assert(self.all_ent@[e.entity_number - 1].entity_number == e.entity_number);
                        }
                        assert(w0[done] == e);
                        assert(!(1 <= w0[done].entity_number <= ents0.len()));
                        assert(!numbers_in_range(ents0.len() as int, w0));
                        assert(w0 == written@);
                        assert(ents0 == old(self).all_ent@);
                    }
                    return Err(BlueprintError::MissingEntity);
                },
            }
        }
        proof {
            assert(w0.take(done) =~= w0);
        }
        Ok(())
    }

    /// The finished blueprint: its entities and wires, labelled with the
    /// name asked for, with the decider combinator as its icon.
    pub fn into_blueprint(self) -> (b: Blueprint)
        ensures
            b.blueprint.entities@ == self.spec_entities(),
            b.blueprint.wires matches Some(w) && w@ == self.spec_wires(),
            b.blueprint.label matches Some(l) && l@ == self.spec_name(),
            b.blueprint.item@ == BLUEPRINT@,
            b.blueprint.version == BLUEPRINT_VERSION,
            b.blueprint.icons matches Some(icons) && icons@.len() == 1 && icons@[0].index == 1
                && icons@[0].signal.name@ == DECIDER_COMB@ && icons@[0].signal.type_@ == crate::blueprint::constants::SIG_TYPE_VIRTUAL@,
    {
        let mut icons: Vec<Icon> = Vec::new();
        icons.push(Icon { signal: Signal::new_virtual(DECIDER_COMB.to_owned()), index: 1 });
        Blueprint {
            blueprint: BlueprintInner {
                icons: Some(icons),
                entities: self.all_ent,
                wires: Some(self.all_wires),
                item: BLUEPRINT.to_owned(),
                label: Some(self.name),
                version: BLUEPRINT_VERSION,
            },
        }
    }
}


// ---------------------------------------------------------------------------
// Frames to lamp values
// ---------------------------------------------------------------------------

/// One colour value per pixel of the raw RGB bytes of a frame; a trailing
/// partial pixel is ignored.
pub fn color_frame_to_outputs(rgb: &[u8]) -> (r: Result<Vec<i32>, BlueprintError>)
    ensures
        r matches Ok(outputs) && outputs@ == spec_rgb_outputs(rgb@),
{
    crate::blueprint::util::color_frame_to_outputs(rgb)
}

/// Packs grayscale frames pixel by pixel, frame `j` in the bits from
/// `grayscale_bits * j` upwards. Frames without pixels pack to nothing,
/// whatever the depth.
pub fn grayscale_frames_to_outputs(frames: &[Vec<u8>], grayscale_bits: u32) -> (r: Result<
    Vec<i32>,
    BlueprintError,
>)
    requires
        packable_frames(rasters_view(frames@), grayscale_bits),
    ensures
        frames@.len() == 0 ==> r matches Err(BlueprintError::NoFramesProvided),
        frames@.len() > 0 && frames@[0]@.len() == 0 ==> (r matches Ok(outputs) && outputs@.len() == 0),
        frames@.len() > 0 && frames@[0]@.len() > 0 && !valid_gray_bits(grayscale_bits) ==> r matches Err(
            BlueprintError::UnsupportedGrayscaleBitDepth,
        ),
        frames@.len() > 0 && valid_gray_bits(grayscale_bits) ==> (r matches Ok(outputs)
            && outputs@ == packed_gray(rasters_view(frames@), grayscale_bits)),
{
    if frames.len() == 0 {
        return Err(BlueprintError::NoFramesProvided);
    }
    if frames[0].len() == 0 {
        proof {
            assert(packed_gray(rasters_view(frames@), grayscale_bits) =~= Seq::<i32>::empty());
        }
        return Ok(Vec::new());
    }
    crate::blueprint::util::grayscale_frames_to_outputs(frames, grayscale_bits)
}

// ---------------------------------------------------------------------------
// Writing the blueprint as JSON, a piece at a time
// ---------------------------------------------------------------------------

/// Where the encoder is in writing.
#[derive(Clone, Copy, Debug, PartialEq, Eq, Structural)]
pub enum BlueprintEncoderState {
    Start,
    Entities,
    Wires,
    Finished,
}

/// The entities the encoder writes at its `j`-th call in the entity part:
/// the next thousand, or the rest.
pub open spec fn encoder_chunk(ents: Seq<Entity>, j: int) -> Seq<Entity> {
    let rest = ents.skip(ENCODE_CHUNK_SIZE * j);
    if rest.len() < ENCODE_CHUNK_SIZE {
        rest
    } else {
        rest.take(ENCODE_CHUNK_SIZE as int)
    }
}

/// How many calls the entity part of `n` entities takes: one even for none.
pub open spec fn encoder_calls(n: int) -> int {
    if n <= 0 {
        1
    } else {
        (n + ENCODE_CHUNK_SIZE - 1) / (ENCODE_CHUNK_SIZE as int)
    }
}

/// The entities written by the first `m` calls in the entity part, one
/// after the other.
pub open spec fn joined_chunks(ents: Seq<Entity>, m: int) -> Seq<Entity>
    decreases m,
{
    if m <= 0 {
        Seq::empty()
    } else {
        joined_chunks(ents, m - 1) + encoder_chunk(ents, m - 1)
    }
}

proof fn lemma_joined_chunks_prefix(ents: Seq<Entity>, m: int)
    requires
        0 <= m,
        ENCODE_CHUNK_SIZE * m <= ents.len(),
    ensures
        joined_chunks(ents, m) == ents.take(ENCODE_CHUNK_SIZE * m),
    decreases m,
{
    if m > 0 {
        lemma_joined_chunks_prefix(ents, m - 1);
        assert(ents.take(ENCODE_CHUNK_SIZE * m) =~= ents.take(ENCODE_CHUNK_SIZE * (m - 1)) + encoder_chunk(ents, m - 1));
    } else {
        assert(ents.take(0) =~= Seq::<Entity>::empty());
    }
}

/// The encoder writes every entity once, in order: the entity part takes
/// `encoder_calls` calls, each before the last writes a full thousand, the
/// last writes the rest (which `next_chunk` closes with a bracket), and
/// together they give back the entities.
pub proof fn lemma_encoder_writes_all(ents: Seq<Entity>)
    ensures
        joined_chunks(ents, encoder_calls(ents.len() as int)) == ents,
        forall|j: int|
            0 <= j < encoder_calls(ents.len() as int) - 1 ==> (#[trigger] encoder_chunk(ents, j)).len()
                == ENCODE_CHUNK_SIZE && ents.skip(ENCODE_CHUNK_SIZE * j).len() != encoder_chunk(ents, j).len(),
        ents.skip(ENCODE_CHUNK_SIZE * (encoder_calls(ents.len() as int) - 1)).len() == encoder_chunk(
            ents,
            encoder_calls(ents.len() as int) - 1,
        ).len(),
{
    let n = ents.len() as int;
    let c = encoder_calls(n);
    assert(c >= 1);
    assert(ENCODE_CHUNK_SIZE * (c - 1) <= n) by (nonlinear_arith)
        requires
            c == (if n <= 0 { 1 } else { (n + 999) / 1000 }),
            ENCODE_CHUNK_SIZE == 1000,
            n >= 0,
    ;
    assert(n - ENCODE_CHUNK_SIZE * (c - 1) <= ENCODE_CHUNK_SIZE) by (nonlinear_arith)
        requires
            c == (if n <= 0 { 1 } else { (n + 999) / 1000 }),
            ENCODE_CHUNK_SIZE == 1000,
            n >= 0,
    ;
    lemma_joined_chunks_prefix(ents, c - 1);
    assert(joined_chunks(ents, c) =~= ents);
    assert forall|j: int| 0 <= j < c - 1 implies (#[trigger] encoder_chunk(ents, j)).len() == ENCODE_CHUNK_SIZE
        && ents.skip(ENCODE_CHUNK_SIZE * j).len() != encoder_chunk(ents, j).len() by {
        assert(ENCODE_CHUNK_SIZE * (j + 1) < n) by (nonlinear_arith)
            requires
                0 <= j < c - 1,
                c == (if n <= 0 { 1 } else { (n + 999) / 1000 }),
                ENCODE_CHUNK_SIZE == 1000,
                n >= 0,
        ;
    }
}

/// Writes a finished blueprint as JSON (`{"blueprint":{"entities":[..],
/// "wires":[..]}}`), the entities a thousand at a time.
pub struct BlueprintEncoder {
    blueprint: Blueprint,
    curr_chunk_i: usize,
    state: BlueprintEncoderState,
}

impl BlueprintEncoder {
    /// Where the encoder is.
    pub closed spec fn spec_state(&self) -> BlueprintEncoderState {
        self.state
    }

    /// The entities not yet written.
    pub closed spec fn spec_remaining(&self) -> Seq<Entity> {
        self.blueprint.blueprint.entities@
    }

    /// The wires, written last.
    pub closed spec fn spec_wires(&self) -> Option<Seq<Wire>> {
        match self.blueprint.blueprint.wires {
            Some(w) => Some(w@),
            None => None,
        }
    }

    /// The number of pieces of entities written so far.
    pub closed spec fn spec_chunks_written(&self) -> int {
        self.curr_chunk_i as int
    }

    /// An encoder at the start of `blueprint`.
    pub fn new(blueprint: Blueprint) -> (e: Self)
        ensures
            e.spec_state() == BlueprintEncoderState::Start,
            e.spec_remaining() == blueprint.blueprint.entities@,
            e.spec_wires() == match blueprint.blueprint.wires {
                Some(w) => Some(w@),
                None => None,
            },
            e.spec_chunks_written() == 0,
    {
        BlueprintEncoder { blueprint, curr_chunk_i: 0, state: BlueprintEncoderState::Start }
    }

    /// Whether everything has been written.
    pub fn done(&self) -> (r: bool)
        ensures
            r == (self.spec_state() == BlueprintEncoderState::Finished),
    {
        self.state == BlueprintEncoderState::Finished
    }

    /// The next pieces of text: the opening; then the entities, a thousand
    /// per call, separated by commas and closed by a bracket after the
    /// last; then the wires and the closing braces. After that there is
    /// nothing left, which is an error.
    pub fn next_chunk(&mut self) -> (r: Result<Vec<Piece>, BlueprintError>)
        requires
            old(self).spec_chunks_written() < usize::MAX,
        ensures
            old(self).spec_state() != BlueprintEncoderState::Wires ==> final(self).spec_wires()
                == old(self).spec_wires(),
            old(self).spec_state() == BlueprintEncoderState::Start ==> {
                &&& r matches Ok(ps) && ps@.len() == 2 && is_text(ps@[0], "{\"blueprint\":"@)
                    && is_text(ps@[1], "{\"entities\":["@)
                &&& final(self).spec_state() == BlueprintEncoderState::Entities
                &&& final(self).spec_remaining() == old(self).spec_remaining()
                &&& final(self).spec_chunks_written() == old(self).spec_chunks_written()
            },
            old(self).spec_state() == BlueprintEncoderState::Entities ==> {
                let rem = old(self).spec_remaining();
                let k = if rem.len() < ENCODE_CHUNK_SIZE { rem.len() as int } else { ENCODE_CHUNK_SIZE as int };
                let first = old(self).spec_chunks_written() == 0;
                let last = k == rem.len();
                &&& r matches Ok(ps) && ps@.len() == (if first { 1int } else { 2int }) + (if last { 1int } else { 0int })
                    && (!first ==> is_text(ps@[0], ","@))
                    && (ps@[if first { 0int } else { 1int }] matches Piece::Entities(chunk) && chunk@ == rem.take(k))
                    && (last ==> is_text(ps@.last(), "]"@))
                &&& final(self).spec_remaining() == rem.skip(k)
                &&& final(self).spec_chunks_written() == old(self).spec_chunks_written() + 1
                &&& final(self).spec_state() == if last {
                    BlueprintEncoderState::Wires
                } else {
                    BlueprintEncoderState::Entities
                }
            },
            old(self).spec_state() == BlueprintEncoderState::Wires ==> {
                &&& r matches Ok(ps) && match old(self).spec_wires() {
                    Some(w) => ps@.len() == 3 && is_text(ps@[0], ",\"wires\":["@)
                        && (ps@[1] matches Piece::Wires(ws) && ws@ == w) && is_text(ps@[2], "]}}"@),
                    None => ps@.len() == 1 && is_text(ps@[0], ",\"wires\":null}}"@),
                }
                &&& final(self).spec_state() == BlueprintEncoderState::Finished
                &&& final(self).spec_remaining() == old(self).spec_remaining()
            },
            old(self).spec_state() == BlueprintEncoderState::Finished ==> {
                &&& r matches Err(BlueprintError::AlreadyFinished)
                &&& final(self).spec_state() == old(self).spec_state()
                &&& final(self).spec_remaining() == old(self).spec_remaining()
            },
    {
        let mut ps: Vec<Piece> = Vec::new();
        match self.state {
            BlueprintEncoderState::Start => {
                ps.push(Piece::Text("{\"blueprint\":".to_owned()));
                ps.push(Piece::Text("{\"entities\":[".to_owned()));
                self.state = BlueprintEncoderState::Entities;
            },
            BlueprintEncoderState::Entities => {
                if self.curr_chunk_i > 0 {
                    ps.push(Piece::Text(",".to_owned()));
                }
                let ghost rem = self.blueprint.blueprint.entities@;
                let n = self.blueprint.blueprint.entities.len();
                let k = if n < ENCODE_CHUNK_SIZE {
                    n
                } else {
                    ENCODE_CHUNK_SIZE
                };
                let mut chunk: Vec<Entity> = Vec::new();
                let mut i: usize = 0;
                while i < k
                    invariant
                        0 <= i <= k <= n,
                        n == rem.len(),
                        chunk@ == rem.take(i as int),
                        self.blueprint.blueprint.entities@ == rem.skip(i as int),
                        self.blueprint.blueprint.wires == old(self).blueprint.blueprint.wires,
                        self.state == old(self).state,
                        self.curr_chunk_i == old(self).curr_chunk_i,
                    decreases k - i,
                {
                    proof {
                        assert(rem.skip(i as int)[0] == rem[i as int]);
                    }
                    let e = self.blueprint.blueprint.entities.remove(0);
                    chunk.push(e);
                    proof {
                        assert(chunk@ =~= rem.take(i + 1));
                        assert(self.blueprint.blueprint.entities@ =~= rem.skip(i + 1));
                    }
                    i += 1;
                }
                ps.push(Piece::Entities(chunk));
                self.curr_chunk_i += 1;
                if k == n {
                    ps.push(Piece::Text("]".to_owned()));
                    self.state = BlueprintEncoderState::Wires;
                }
            },
            BlueprintEncoderState::Wires => {
                let mut wires: Option<Vec<Wire>> = None;
                std::mem::swap(&mut wires, &mut self.blueprint.blueprint.wires);
                match wires {
                    Some(w) => {
                        ps.push(Piece::Text(",\"wires\":[".to_owned()));
                        ps.push(Piece::Wires(w));
                        ps.push(Piece::Text("]}}".to_owned()));
                    },
                    None => {
                        ps.push(Piece::Text(",\"wires\":null}}".to_owned()));
                    },
                }
                self.state = BlueprintEncoderState::Finished;
            },
            BlueprintEncoderState::Finished => {
                return Err(BlueprintError::AlreadyFinished);
            },
        }
        Ok(ps)
    }
}

} // verus!
