//! The streaming blueprint generator: entities first, then the pixel data of
//! every frame, written into the data combinators, then the wires.
use crate::blueprint::combinator::{
    generate_combinators, layout_ready, n_helpers, placed, plan_grid, plan_layout, queries_upto, uses_delta,
    CombGrid, CombinatorPositionData,
};
use crate::blueprint::constants::{
    BLUEPRINT, BLUEPRINT_VERSION, COMP_AND, COMP_GE, COMP_LT, DEC_CB, SIG_T, WIRE_G, WIRE_OUT_G,
    WIRE_OUT_R, WIRE_R,
};
use crate::blueprint::lamp::{generate_lamps, is_lamp, is_static_colors, lamp_pos, lamp_run, LampRun};
use crate::blueprint::models::{
    BlueprintInner, CombinatorOutput, Condition, ControlBehavior, DeciderConditions, Entity, Icon,
    Position, Signal, Wire,
};
use crate::blueprint::signals::{entries_fit, get_signals_with_quality, SignalEntry};
use crate::blueprint::substation::{after_requests, generate_substations, spec_coverage, SubstationOccupied};
use crate::blueprint::timer::{generate_timer, is_some_virtual, is_timer, timer_wires};
use crate::blueprint::util::{
    color_frame_to_outputs, crop, grayscale_frames_to_outputs, invert_wires, packable_frames,
    packed_gray, rasters_view, spec_inverted_wire, spec_rgb_outputs, valid_gray_bits,
    BlueprintError, Raster, RgbaFrame,
};
use crate::models::{BlueprintArgs, Mode, SignalCompression};
use vstd::prelude::*;

verus! {

// ---------------------------------------------------------------------------
// What data combinators hold
// ---------------------------------------------------------------------------

/// The output of `signal` with the fixed count `v`.
pub open spec fn value_output(signal: Signal, v: i32) -> CombinatorOutput {
    CombinatorOutput {
        copy_count_from_input: Some(false),
        constant: Some(v),
        signal: Some(signal),
        networks: None,
    }
}

/// Outputs for the first `n` pixels: pixel `i` gets `signals[i]` with count
/// `vals[i]` where the mask is set and the value is not zero.
pub open spec fn masked_outputs(vals: Seq<i32>, mask: Seq<bool>, signals: Seq<Signal>, n: int) -> Seq<
    CombinatorOutput,
>
    decreases n,
{
    if n <= 0 {
        Seq::empty()
    } else {
        masked_outputs(vals, mask, signals, n - 1) + if mask[n - 1] && vals[n - 1] != 0 {
            seq![value_output(signals[n - 1], vals[n - 1])]
        } else {
            Seq::<CombinatorOutput>::empty()
        }
    }
}

/// The count a list of outputs puts on the wire for `signal`.
pub open spec fn output_value(outs: Seq<CombinatorOutput>, signal: Signal) -> int
    decreases outs.len(),
{
    if outs.len() == 0 {
        0
    } else {
        output_value(outs.drop_last(), signal) + if outs.last().signal == Some(signal) {
            match outs.last().constant {
                Some(v) => v as int,
                None => 0,
            }
        } else {
            0
        }
    }
}

/// Per pixel: whether its value differs, in some later buffered frame, from
/// the first buffered frame. With a single frame every pixel counts as
/// changed.
pub open spec fn changed_mask(buf: Seq<Seq<i32>>, n: int) -> Seq<bool> {
    if buf.len() > 1 {
        Seq::new(
            n as nat,
            |i: int| exists|k: int| 1 <= k < buf.len() && #[trigger] buf[k][i] != buf[0][i],
        )
    } else {
        Seq::new(n as nat, |i: int| true)
    }
}

/// The mask with every entry flipped.
pub open spec fn not_mask(m: Seq<bool>) -> Seq<bool> {
    Seq::new(m.len(), |i: int| !m[i])
}

/// What delta compression stores: the wrapping difference to the previous
/// frame, pixel by pixel.
pub open spec fn deltas(cur: Seq<i32>, prev: Seq<i32>) -> Seq<i32> {
    Seq::new(cur.len(), |i: int| vstd::wrapping::i32_specs::wrapping_sub(cur[i], prev[i]))
}

/// The decider settings that output `outs` while `start <= signal-T < end`.
pub open spec fn is_window(d: DeciderConditions, start: int, end: int, outs: Seq<CombinatorOutput>) -> bool {
    &&& d.conditions matches Some(cs) && cs@.len() == 2 && {
        &&& is_some_virtual(cs@[0].first_signal, SIG_T@)
        &&& cs@[0].constant == Some(start as i32)
        &&& cs@[0].comparator matches Some(c0) && c0@ == COMP_GE@
        &&& cs@[0].compare_type is None
        &&& cs@[0].first_signal_networks is None
        &&& is_some_virtual(cs@[1].first_signal, SIG_T@)
        &&& cs@[1].constant == Some(end as i32)
        &&& cs@[1].comparator matches Some(c1) && c1@ == COMP_LT@
        &&& cs@[1].compare_type matches Some(t) && t@ == COMP_AND@
        &&& cs@[1].first_signal_networks is None
    }
    &&& d.outputs matches Some(os) && os@ == outs
}

/// `e` is the data combinator `template` set to output `outs` while
/// `start <= signal-T < end`.
pub open spec fn is_window_comb(e: Entity, template: Entity, start: int, end: int, outs: Seq<CombinatorOutput>) -> bool {
    &&& e.control_behavior matches Some(ControlBehavior::Decider { decider_conditions: d })
        && is_window(d, start, end, outs)
    &&& e == (Entity { control_behavior: e.control_behavior, ..template })
}

/// Decider settings that output `outputs` for ticks `start..end`.
pub fn mk_cb(start: u32, end: u32, outputs: Vec<CombinatorOutput>) -> (cb: ControlBehavior)
    ensures
        cb matches ControlBehavior::Decider { decider_conditions: d } && is_window(
            d,
            start as int,
            end as int,
            outputs@,
        ),
{
    let mut conditions: Vec<Condition> = Vec::new();
    conditions.push(Condition::new(Signal::new_virtual(SIG_T.to_owned()), start as i32, COMP_GE));
    conditions.push(
        Condition::new(Signal::new_virtual(SIG_T.to_owned()), end as i32, COMP_LT).with_compare_type(
            COMP_AND,
        ),
    );
    ControlBehavior::from_decider_conditions(
        DeciderConditions { conditions: Some(conditions), outputs: Some(outputs) },
    )
}

/// The outputs of the pixels whose mask entry is set and whose value is not
/// zero.
pub fn collect_outputs(vals: &Vec<i32>, mask: &Vec<bool>, signals: &[Signal]) -> (outs: Vec<
    CombinatorOutput,
>)
    requires
        mask@.len() == vals@.len(),
        signals@.len() >= vals@.len(),
    ensures
        outs@ == masked_outputs(vals@, mask@, signals@, vals@.len() as int),
{
    let mut outs: Vec<CombinatorOutput> = Vec::new();
    let mut i: usize = 0;
    while i < vals.len()
        invariant
            mask@.len() == vals@.len(),
            signals@.len() >= vals@.len(),
            0 <= i <= vals@.len(),
            outs@ == masked_outputs(vals@, mask@, signals@, i as int),
        decreases vals@.len() - i,
    {
        if mask[i] && vals[i] != 0 {
            outs.push(CombinatorOutput::new(signals[i].clone(), Some(vals[i])));
        }
        proof {
            assert(outs@ =~= masked_outputs(vals@, mask@, signals@, i + 1));
        }
        i += 1;
    }
    outs
}

// ---------------------------------------------------------------------------
// Laws of what the data combinators hold
// ---------------------------------------------------------------------------

/// The count that the first `n` pixels' outputs put on the wire for the
/// signal of pixel `i` is that pixel's value where the mask is set, and 0
/// elsewhere, provided the signals of the pixels are all different.
pub proof fn lemma_masked_output_value(
    vals: Seq<i32>,
    mask: Seq<bool>,
    signals: Seq<Signal>,
    n: int,
    i: int,
)
    requires
        0 <= i < n <= vals.len(),
        n <= mask.len(),
        n <= signals.len(),
        signals.no_duplicates(),
    ensures
        output_value(masked_outputs(vals, mask, signals, n), signals[i]) == if mask[i] {
            vals[i] as int
        } else {
            0
        },
    decreases n,
{
    let prev = masked_outputs(vals, mask, signals, n - 1);
    let cur = masked_outputs(vals, mask, signals, n);
    if i < n - 1 {
        lemma_masked_output_value(vals, mask, signals, n - 1, i);
    } else {
        lemma_masked_output_absent(vals, mask, signals, n - 1, i);
    }
    if mask[n - 1] && vals[n - 1] != 0 {
        assert(cur.drop_last() =~= prev);
        if i < n - 1 {
            assert(signals[n - 1] != signals[i]);
        }
    } else {
        assert(cur =~= prev);
    }
}

/// Outputs of pixels before `n` say nothing of the signal of a pixel at or
/// after `n` (the signals being all different).
proof fn lemma_masked_output_absent(
    vals: Seq<i32>,
    mask: Seq<bool>,
    signals: Seq<Signal>,
    n: int,
    i: int,
)
    requires
        0 <= n <= i < signals.len(),
        n <= vals.len(),
        n <= mask.len(),
        signals.no_duplicates(),
    ensures
        output_value(masked_outputs(vals, mask, signals, n), signals[i]) == 0,
    decreases n,
{
    if n > 0 {
        lemma_masked_output_absent(vals, mask, signals, n - 1, i);
        let prev = masked_outputs(vals, mask, signals, n - 1);
        let cur = masked_outputs(vals, mask, signals, n);
        if mask[n - 1] && vals[n - 1] != 0 {
            assert(cur.drop_last() =~= prev);
            assert(signals[n - 1] != signals[i]);
        } else {
            assert(cur =~= prev);
        }
    }
}

/// Temporal compression loses nothing: while buffered frame `k` is shown,
/// its own combinator and the combinator of unchanged pixels together put
/// exactly that frame's value of pixel `i` on the wire. (The combinator of
/// unchanged pixels only exists for more than one buffered frame.)
pub proof fn lemma_temporal_reconstruction(buf: Seq<Seq<i32>>, signals: Seq<Signal>, n: int, k: int, i: int)
    requires
        0 <= k < buf.len(),
        0 <= i < n,
        n <= signals.len(),
        forall|j: int| 0 <= j < buf.len() ==> (#[trigger] buf[j]).len() == n,
        signals.no_duplicates(),
    ensures
        ({
            let mask = changed_mask(buf, n);
            let own = output_value(masked_outputs(buf[k], mask, signals, n), signals[i]);
            let still = if buf.len() > 1 {
                output_value(masked_outputs(buf[0], not_mask(mask), signals, n), signals[i])
            } else {
                0
            };
            own + still == buf[k][i] as int
        }),
{
    let mask = changed_mask(buf, n);
    lemma_masked_output_value(buf[k], mask, signals, n, i);
    if buf.len() > 1 {
        lemma_masked_output_value(buf[0], not_mask(mask), signals, n, i);
        if !mask[i] && k > 0 {
            assert(!(buf[k][i] != buf[0][i]));
        }
    }
}

/// Delta compression loses nothing: adding (with wraparound) the count that
/// the delta combinator puts on the wire to the previous value of a pixel
/// gives its new value.
pub proof fn lemma_delta_reconstruction(cur: Seq<i32>, prev: Seq<i32>, signals: Seq<Signal>, i: int)
    requires
        0 <= i < cur.len(),
        prev.len() == cur.len(),
        cur.len() <= signals.len(),
        signals.no_duplicates(),
    ensures
        ({
            let outs = masked_outputs(
                deltas(cur, prev),
                Seq::new(cur.len(), |j: int| true),
                signals,
                cur.len() as int,
            );
            vstd::wrapping::i32_specs::wrapping_add(prev[i], output_value(outs, signals[i]) as i32)
                == cur[i]
        }),
{
    let d = deltas(cur, prev);
    let all = Seq::new(cur.len(), |j: int| true);
    lemma_masked_output_value(d, all, signals, cur.len() as int, i);
}

/// What the windows `ws` that are active at tick `x` put on the wire for
/// `sig`, added up.
pub open spec fn active_sum(ws: Seq<WindowSpec>, x: int, sig: Signal) -> int
    decreases ws.len(),
{
    if ws.len() == 0 {
        0
    } else {
        active_sum(ws.drop_last(), x, sig) + if ws.last().start <= x < ws.last().end {
            output_value(ws.last().outs, sig)
        } else {
            0
        }
    }
}

proof fn lemma_active_sum_concat(a: Seq<WindowSpec>, b: Seq<WindowSpec>, x: int, sig: Signal)
    ensures
        active_sum(a + b, x, sig) == active_sum(a, x, sig) + active_sum(b, x, sig),
    decreases b.len(),
{
    if b.len() > 0 {
        assert((a + b).drop_last() =~= a + b.drop_last());
        lemma_active_sum_concat(a, b.drop_last(), x, sig);
    } else {
        assert(a + b =~= a);
    }
}

/// Among the first `m` per-frame windows of a chunk, only that of frame `k`
/// is active while frame `k` is shown.
proof fn lemma_active_own(
    buf: Seq<Seq<i32>>,
    c: int,
    nb: int,
    nf: int,
    tpg: int,
    signals: Seq<Signal>,
    n: int,
    k: int,
    i: int,
    m: int,
)
    requires
        tpg >= 1,
        0 <= k < buf.len(),
        0 <= m <= buf.len(),
    ensures
        ({
            let mask = changed_mask(buf, n);
            let own = Seq::new(
                buf.len(),
                |j: int|
                    WindowSpec {
                        comb: c * (nb + nf) + j + nf,
                        start: (c * nb + j) * tpg,
                        end: (c * nb + j + 1) * tpg,
                        outs: masked_outputs(buf[j], mask, signals, n),
                    },
            );
            active_sum(own.take(m), (c * nb + k) * tpg, signals[i]) == if k < m {
                output_value(masked_outputs(buf[k], mask, signals, n), signals[i])
            } else {
                0
            }
        }),
    decreases m,
{
    let mask = changed_mask(buf, n);
    let own = Seq::new(
        buf.len(),
        |j: int|
            WindowSpec {
                comb: c * (nb + nf) + j + nf,
                start: (c * nb + j) * tpg,
                end: (c * nb + j + 1) * tpg,
                outs: masked_outputs(buf[j], mask, signals, n),
            },
    );
    if m > 0 {
        lemma_active_own(buf, c, nb, nf, tpg, signals, n, k, i, m - 1);
        assert(own.take(m).drop_last() =~= own.take(m - 1));
        let j = m - 1;
        let x = (c * nb + k) * tpg;
        if j < k {
            assert((c * nb + j + 1) * tpg <= x) by (nonlinear_arith)
                requires
                    j + 1 <= k,
                    tpg >= 1,
                    x == (c * nb + k) * tpg,
            ;
        } else if j > k {
            assert(x < (c * nb + j) * tpg) by (nonlinear_arith)
                requires
                    k < j,
                    tpg >= 1,
                    x == (c * nb + k) * tpg,
            ;
        } else {
            assert(x < (c * nb + j + 1) * tpg) by (nonlinear_arith)
                requires
                    j == k,
                    tpg >= 1,
                    x == (c * nb + k) * tpg,
            ;
        }
    } else {
        assert(own.take(0) =~= Seq::<WindowSpec>::empty());
    }
}

/// Temporal compression loses nothing: at the tick where buffered frame
/// `k` of chunk `c` is shown, the windows of that chunk that are active
/// together put exactly that frame's value of pixel `i` on the wire.
pub proof fn lemma_temporal_active(
    buf: Seq<Seq<i32>>,
    c: int,
    nb: int,
    nf: int,
    tpg: int,
    signals: Seq<Signal>,
    n: int,
    k: int,
    i: int,
)
    requires
        tpg >= 1,
        0 <= k < buf.len(),
        0 <= i < n,
        n <= signals.len(),
        forall|j: int| 0 <= j < buf.len() ==> (#[trigger] buf[j]).len() == n,
        signals.no_duplicates(),
    ensures
        active_sum(temporal_windows(buf, c, nb, nf, tpg, signals, n), (c * nb + k) * tpg, signals[i]) == buf[k][i],
{
    let mask = changed_mask(buf, n);
    let x = (c * nb + k) * tpg;
    let own = Seq::new(
        buf.len(),
        |j: int|
            WindowSpec {
                comb: c * (nb + nf) + j + nf,
                start: (c * nb + j) * tpg,
                end: (c * nb + j + 1) * tpg,
                outs: masked_outputs(buf[j], mask, signals, n),
            },
    );
    let still = if buf.len() > 1 {
        seq![WindowSpec {
            comb: c * (nb + nf),
            start: (c * nb) * tpg,
            end: (c * nb + buf.len()) * tpg,
            outs: masked_outputs(buf[0], not_mask(mask), signals, n),
        }]
    } else {
        Seq::<WindowSpec>::empty()
    };
    assert(temporal_windows(buf, c, nb, nf, tpg, signals, n) =~= own + still);
    lemma_active_sum_concat(own, still, x, signals[i]);
    lemma_active_own(buf, c, nb, nf, tpg, signals, n, k, i, buf.len() as int);
    assert(own.take(buf.len() as int) =~= own);
    lemma_temporal_reconstruction(buf, signals, n, k, i);
    if buf.len() > 1 {
        assert((c * nb) * tpg <= x < (c * nb + buf.len()) * tpg) by (nonlinear_arith)
            requires
                0 <= k < buf.len(),
                tpg >= 1,
                x == (c * nb + k) * tpg,
        ;
        assert(still.drop_last() =~= Seq::<WindowSpec>::empty());
        assert(active_sum(still.drop_last(), x, signals[i]) == 0);
        assert(active_sum(still, x, signals[i]) == output_value(
            masked_outputs(buf[0], not_mask(mask), signals, n),
            signals[i],
        ));
    } else {
        assert(still =~= Seq::<WindowSpec>::empty());
        assert(active_sum(still, x, signals[i]) == 0);
    }
    assert(active_sum(own, x, signals[i]) == output_value(masked_outputs(buf[k], mask, signals, n), signals[i]));
}

/// The windows of chunk `c` are quiet outside the ticks of its frames.
proof fn lemma_temporal_quiet(
    buf: Seq<Seq<i32>>,
    c: int,
    nb: int,
    nf: int,
    tpg: int,
    signals: Seq<Signal>,
    n: int,
    x: int,
    sig: Signal,
    m: int,
)
    requires
        tpg >= 1,
        buf.len() <= nb,
        x < (c * nb) * tpg || (c * nb + nb) * tpg <= x,
        0 <= m <= temporal_windows(buf, c, nb, nf, tpg, signals, n).len(),
    ensures
        active_sum(temporal_windows(buf, c, nb, nf, tpg, signals, n).take(m), x, sig) == 0,
    decreases m,
{
    let ws = temporal_windows(buf, c, nb, nf, tpg, signals, n);
    if m > 0 {
        lemma_temporal_quiet(buf, c, nb, nf, tpg, signals, n, x, sig, m - 1);
        assert(ws.take(m).drop_last() =~= ws.take(m - 1));
        let w = ws[m - 1];
        assert(!(w.start <= x < w.end)) by {
            if m - 1 < buf.len() {
                let j = m - 1;
                assert(w.start == (c * nb + j) * tpg && w.end == (c * nb + j + 1) * tpg);
                assert((c * nb) * tpg <= (c * nb + j) * tpg && (c * nb + j + 1) * tpg <= (c * nb + nb) * tpg)
                    by (nonlinear_arith)
                    requires
                        0 <= j,
                        j + 1 <= nb,
                        tpg >= 1,
                ;
            } else {
                assert(w.start == (c * nb) * tpg && w.end == (c * nb + buf.len()) * tpg);
                assert((c * nb + buf.len()) * tpg <= (c * nb + nb) * tpg) by (nonlinear_arith)
                    requires
                        buf.len() <= nb,
                        tpg >= 1,
                ;
            }
        }
    } else {
        assert(ws.take(0) =~= Seq::<WindowSpec>::empty());
    }
}

/// The windows written for chunks `0..k`, one buffer of frames per chunk.
pub open spec fn temporal_run(bufs: Seq<Seq<Seq<i32>>>, nb: int, nf: int, tpg: int, signals: Seq<Signal>, n: int, k: int) -> Seq<
    WindowSpec,
>
    decreases k,
{
    if k <= 0 {
        Seq::empty()
    } else {
        temporal_run(bufs, nb, nf, tpg, signals, n, k - 1) + temporal_windows(bufs[k - 1], k - 1, nb, nf, tpg, signals, n)
    }
}

/// Temporal compression loses nothing over a whole run: at the tick where
/// frame `k` of chunk `c` is shown, the windows of every chunk that are
/// active together put exactly that frame's value of pixel `i` on the wire.
pub proof fn lemma_temporal_run(
    bufs: Seq<Seq<Seq<i32>>>,
    nb: int,
    nf: int,
    tpg: int,
    signals: Seq<Signal>,
    n: int,
    m: int,
    c: int,
    k: int,
    i: int,
)
    requires
        tpg >= 1,
        0 <= c < m <= bufs.len(),
        0 <= k < bufs[c].len(),
        0 <= i < n,
        n <= signals.len(),
        signals.no_duplicates(),
        forall|d: int| 0 <= d < bufs.len() ==> (#[trigger] bufs[d]).len() <= nb,
        forall|d: int, j: int| 0 <= d < bufs.len() && 0 <= j < bufs[d].len() ==> (#[trigger] bufs[d][j]).len() == n,
    ensures
        active_sum(temporal_run(bufs, nb, nf, tpg, signals, n, m), (c * nb + k) * tpg, signals[i]) == bufs[c][k][i],
    decreases m,
{
    let x = (c * nb + k) * tpg;
    let last = temporal_windows(bufs[m - 1], m - 1, nb, nf, tpg, signals, n);
    lemma_active_sum_concat(temporal_run(bufs, nb, nf, tpg, signals, n, m - 1), last, x, signals[i]);
    if c < m - 1 {
        lemma_temporal_run(bufs, nb, nf, tpg, signals, n, m - 1, c, k, i);
        assert((c * nb + nb) * tpg <= ((m - 1) * nb) * tpg) by (nonlinear_arith)
            requires
                c + 1 <= m - 1,
                nb >= 0,
                tpg >= 1,
        ;
        assert(x < (c * nb + nb) * tpg) by (nonlinear_arith)
            requires
                k < nb,
                tpg >= 1,
                x == (c * nb + k) * tpg,
        ;
        lemma_temporal_quiet(bufs[m - 1], m - 1, nb, nf, tpg, signals, n, x, signals[i], last.len() as int);
        assert(last.take(last.len() as int) =~= last);
    } else {
        assert forall|j: int| 0 <= j < bufs[c].len() implies (#[trigger] bufs[c][j]).len() == n by {}
        lemma_temporal_active(bufs[c], c, nb, nf, tpg, signals, n, k, i);
        assert((c * nb) * tpg <= x) by (nonlinear_arith)
            requires
                k >= 0,
                tpg >= 1,
                x == (c * nb + k) * tpg,
        ;
        lemma_temporal_run_quiet_before(bufs, nb, nf, tpg, signals, n, m - 1, x, signals[i]);
    }
}

/// Chunks before `m` are quiet from the first tick of chunk `m` on.
proof fn lemma_temporal_run_quiet_before(
    bufs: Seq<Seq<Seq<i32>>>,
    nb: int,
    nf: int,
    tpg: int,
    signals: Seq<Signal>,
    n: int,
    m: int,
    x: int,
    sig: Signal,
)
    requires
        tpg >= 1,
        0 <= m <= bufs.len(),
        (m * nb) * tpg <= x,
        forall|d: int| 0 <= d < bufs.len() ==> (#[trigger] bufs[d]).len() <= nb,
    ensures
        active_sum(temporal_run(bufs, nb, nf, tpg, signals, n, m), x, sig) == 0,
    decreases m,
{
    if m > 0 {
        let last = temporal_windows(bufs[m - 1], m - 1, nb, nf, tpg, signals, n);
        assert(((m - 1) * nb) * tpg <= (m * nb) * tpg) by (nonlinear_arith)
            requires
                m >= 1,
                nb >= bufs[m - 1].len() >= 0,
                tpg >= 1,
        ;
        lemma_temporal_run_quiet_before(bufs, nb, nf, tpg, signals, n, m - 1, x, sig);
        lemma_active_sum_concat(temporal_run(bufs, nb, nf, tpg, signals, n, m - 1), last, x, sig);
        assert(((m - 1) * nb + nb) * tpg == (m * nb) * tpg) by (nonlinear_arith);
        lemma_temporal_quiet(bufs[m - 1], m - 1, nb, nf, tpg, signals, n, x, sig, last.len() as int);
        assert(last.take(last.len() as int) =~= last);
    }
}

/// The values the delta combinator of chunk `c` is made against: nothing
/// before the first chunk, else the chunk before.
pub open spec fn delta_prev(vals: Seq<Seq<i32>>, n: int, c: int) -> Seq<i32> {
    if c <= 0 {
        Seq::new(n as nat, |j: int| 0i32)
    } else {
        vals[c - 1]
    }
}

/// What the delta combinators of chunks `0..=k` put on the wire for pixel
/// `i`, added up with wraparound as the lamps' memory does.
pub open spec fn delta_run_sum(vals: Seq<Seq<i32>>, tpg: int, signals: Seq<Signal>, n: int, i: int, k: int) -> i32
    decreases k,
{
    let out = output_value(delta_window(k, tpg, vals[k], delta_prev(vals, n, k), signals, n).outs, signals[i]) as i32;
    if k <= 0 {
        vstd::wrapping::i32_specs::wrapping_add(0i32, out)
    } else {
        vstd::wrapping::i32_specs::wrapping_add(delta_run_sum(vals, tpg, signals, n, i, k - 1), out)
    }
}

/// Delta compression loses nothing over a whole run: adding up what the
/// delta combinators of chunks `0..=k` put on the wire for pixel `i` gives
/// its value in chunk `k`.
pub proof fn lemma_delta_run(vals: Seq<Seq<i32>>, tpg: int, signals: Seq<Signal>, n: int, i: int, k: int)
    requires
        0 <= k < vals.len(),
        0 <= i < n,
        n <= signals.len(),
        forall|j: int| 0 <= j < vals.len() ==> (#[trigger] vals[j]).len() == n,
        signals.no_duplicates(),
    ensures
        delta_run_sum(vals, tpg, signals, n, i, k) == vals[k][i],
    decreases k,
{
    let prev = delta_prev(vals, n, k);
    lemma_delta_reconstruction(vals[k], prev, signals, i);
    if k > 0 {
        lemma_delta_run(vals, tpg, signals, n, i, k - 1);
    }
}

/// A group's progress after it was handed the images `imgs[0..k]`, none of
/// them the last.
pub open spec fn patch_after(
    st: PatchSpecState,
    imgs: Seq<Seq<u8>>,
    n: int,
    cfg: PatchConfig,
    signals: Seq<Signal>,
    k: int,
) -> PatchSpecState
    decreases k,
{
    if k <= 0 {
        st
    } else {
        patch_spec(patch_after(st, imgs, n, cfg, signals, k - 1), imgs[k - 1], n, false, cfg, signals).st
    }
}

/// The packed values of the colour images `imgs`, one sequence per image.
pub open spec fn rgb_values(imgs: Seq<Seq<u8>>) -> Seq<Seq<i32>> {
    Seq::new(imgs.len(), |j: int| spec_rgb_outputs(imgs[j]))
}

/// Under delta compression of colour frames, after `k` frames a group has
/// filled `k` chunks and holds the values of the last frame.
proof fn lemma_delta_patch_state(
    st: PatchSpecState,
    imgs: Seq<Seq<u8>>,
    n: int,
    cfg: PatchConfig,
    signals: Seq<Signal>,
    k: int,
)
    requires
        cfg.use_delta_comp,
        cfg.gray_bits == 0,
        cfg.n_buf_frames <= 1,
        st.chunk_i == 0,
        st.sig_buf.len() == 0,
        0 <= k <= imgs.len(),
        forall|j: int| 0 <= j < imgs.len() ==> (#[trigger] spec_rgb_outputs(imgs[j])).len() == n,
    ensures
        patch_after(st, imgs, n, cfg, signals, k) == (PatchSpecState {
            chunk_i: k,
            frame_buf: st.frame_buf,
            sig_buf: if k == 0 {
                st.sig_buf
            } else {
                seq![rgb_values(imgs)[k - 1]]
            },
        }),
    decreases k,
{
    if k > 0 {
        lemma_delta_patch_state(st, imgs, n, cfg, signals, k - 1);
        let prev = patch_after(st, imgs, n, cfg, signals, k - 1);
        assert(spec_rgb_outputs(imgs[k - 1]).len() == n);
        let buf0 = if prev.sig_buf.len() == 0 {
            seq![Seq::new(n as nat, |i: int| 0i32)]
        } else {
            prev.sig_buf
        };
        assert(buf0.update(0, spec_rgb_outputs(imgs[k - 1])) =~= seq![rgb_values(imgs)[k - 1]]);
    }
}

/// Delta compression of colour frames, over a whole run: frame `c` is
/// written as one window, for the single tick `1 + c * tpg`, holding the
/// change from the frame before (from nothing, for the first); adding up
/// the windows of frames `0..=c` gives back every pixel of frame `c`.
pub proof fn lemma_delta_patch_run(
    st: PatchSpecState,
    imgs: Seq<Seq<u8>>,
    n: int,
    cfg: PatchConfig,
    signals: Seq<Signal>,
    c: int,
    is_last: bool,
)
    requires
        cfg.use_delta_comp,
        cfg.gray_bits == 0,
        cfg.n_buf_frames <= 1,
        st.chunk_i == 0,
        st.sig_buf.len() == 0,
        0 <= c < imgs.len(),
        0 <= n <= signals.len(),
        signals.no_duplicates(),
        forall|j: int| 0 <= j < imgs.len() ==> (#[trigger] spec_rgb_outputs(imgs[j])).len() == n,
    ensures
        ({
            let res = patch_spec(patch_after(st, imgs, n, cfg, signals, c), imgs[c], n, is_last, cfg, signals);
            let vals = rgb_values(imgs);
            &&& res.err is None
            &&& res.windows == seq![
                delta_window(c, cfg.ticks_per_grp as int, vals[c], delta_prev(vals, n, c), signals, n),
            ]
            &&& forall|i: int|
                0 <= i < n ==> #[trigger] delta_run_sum(vals, cfg.ticks_per_grp as int, signals, n, i, c)
                    == vals[c][i]
        }),
{
    let vals = rgb_values(imgs);
    lemma_delta_patch_state(st, imgs, n, cfg, signals, c);
    assert(spec_rgb_outputs(imgs[c]).len() == n);
    if c > 0 {
        assert(vals[c - 1] == spec_rgb_outputs(imgs[c - 1]));
    } else {
        assert(delta_prev(vals, n, c) =~= Seq::new(n as nat, |i: int| 0i32));
    }
    assert forall|i: int| 0 <= i < n implies #[trigger] delta_run_sum(vals, cfg.ticks_per_grp as int, signals, n, i, c)
        == vals[c][i] by {
        assert forall|j: int| 0 <= j < vals.len() implies (#[trigger] vals[j]).len() == n by {
            assert(vals[j] == spec_rgb_outputs(imgs[j]));
        }
        lemma_delta_run(vals, cfg.ticks_per_grp as int, signals, n, i, c);
    }
}

/// Under temporal compression of colour frames, after `k` frames a group
/// has filled one chunk per `n_buf_frames` frames and holds the frames of
/// the chunk it is filling.
proof fn lemma_temporal_patch_state(
    st: PatchSpecState,
    imgs: Seq<Seq<u8>>,
    n: int,
    cfg: PatchConfig,
    signals: Seq<Signal>,
    k: int,
)
    requires
        !cfg.use_delta_comp,
        cfg.gray_bits == 0,
        cfg.n_buf_frames >= 1,
        st.chunk_i == 0,
        st.sig_buf.len() == 0,
        0 <= k <= imgs.len(),
        forall|j: int| 0 <= j < imgs.len() ==> (#[trigger] spec_rgb_outputs(imgs[j])).len() == n,
    ensures
        patch_after(st, imgs, n, cfg, signals, k) == (PatchSpecState {
            chunk_i: k / (cfg.n_buf_frames as int),
            frame_buf: st.frame_buf,
            sig_buf: rgb_values(imgs).subrange(k - k % (cfg.n_buf_frames as int), k),
        }),
    decreases k,
{
    let nb = cfg.n_buf_frames as int;
    let vals = rgb_values(imgs);
    if k > 0 {
        lemma_temporal_patch_state(st, imgs, n, cfg, signals, k - 1);
        let q = (k - 1) / nb;
        let r = (k - 1) % nb;
        vstd::arithmetic::div_mod::lemma_fundamental_div_mod(k - 1, nb);
        assert(spec_rgb_outputs(imgs[k - 1]).len() == n);
        assert(vals[k - 1] == spec_rgb_outputs(imgs[k - 1]));
        assert(vals.subrange(k - 1 - r, k - 1).push(vals[k - 1]) =~= vals.subrange(k - 1 - r, k));
        let prev = patch_after(st, imgs, n, cfg, signals, k - 1);
        assert(prev.sig_buf.len() == r);
        if r + 1 < nb {
            assert(q * nb == nb * q) by (nonlinear_arith);
            vstd::arithmetic::div_mod::lemma_fundamental_div_mod_converse(k, nb, q, r + 1);
            assert(k - k % nb == k - 1 - r);
        } else {
            assert(k == (q + 1) * nb + 0) by (nonlinear_arith)
                requires
                    k - 1 == nb * q + r,
                    r + 1 == nb,
            ;
            vstd::arithmetic::div_mod::lemma_fundamental_div_mod_converse(k, nb, q + 1, 0);
            assert(vals.subrange(k, k) =~= Seq::<Seq<i32>>::empty());
        }
    } else {
        vstd::arithmetic::div_mod::lemma_fundamental_div_mod_converse(0, nb, 0, 0);
        assert(vals.subrange(0, 0) =~= Seq::<Seq<i32>>::empty());
        assert(st.sig_buf =~= Seq::<Seq<i32>>::empty());
    }
}

/// The frames of chunk `d`: `nb` frames from frame `d * nb` on.
pub open spec fn chunk_frames(vals: Seq<Seq<i32>>, nb: int, m: int) -> Seq<Seq<Seq<i32>>> {
    Seq::new(m as nat, |d: int| vals.subrange(d * nb, d * nb + nb))
}

/// Temporal compression of colour frames, over a whole run: a group writes
/// nothing until a chunk's frames are all in (or the last frame came), and
/// then the windows of that chunk's frames; at the tick where a frame of a
/// full chunk is shown, the windows of all full chunks that are active
/// together give back every pixel of that frame.
pub proof fn lemma_temporal_patch_run(
    st: PatchSpecState,
    imgs: Seq<Seq<u8>>,
    n: int,
    cfg: PatchConfig,
    signals: Seq<Signal>,
    c: int,
    is_last: bool,
)
    requires
        !cfg.use_delta_comp,
        cfg.gray_bits == 0,
        cfg.n_buf_frames >= 1,
        cfg.ticks_per_grp >= 1,
        st.chunk_i == 0,
        st.sig_buf.len() == 0,
        0 <= c < imgs.len(),
        0 <= n <= signals.len(),
        signals.no_duplicates(),
        forall|j: int| 0 <= j < imgs.len() ==> (#[trigger] spec_rgb_outputs(imgs[j])).len() == n,
    ensures
        ({
            let nb = cfg.n_buf_frames as int;
            let res = patch_spec(patch_after(st, imgs, n, cfg, signals, c), imgs[c], n, is_last, cfg, signals);
            let vals = rgb_values(imgs);
            &&& res.err is None
            &&& res.windows == if (c + 1) % nb == 0 || is_last {
                temporal_windows(
                    vals.subrange(c - c % nb, c + 1),
                    c / nb,
                    nb,
                    cfg.n_frames_per_chunk as int,
                    cfg.ticks_per_grp as int,
                    signals,
                    n,
                )
            } else {
                Seq::<WindowSpec>::empty()
            }
            &&& (c + 1) % nb == 0 ==> vals.subrange(c - c % nb, c + 1) == chunk_frames(vals, nb, c / nb + 1)[c / nb]
            &&& forall|i: int, d: int, k: int|
                0 <= i < n && 0 <= d < (imgs.len() as int) / nb && 0 <= k < nb ==> #[trigger] active_sum(
                    temporal_run(
                        chunk_frames(vals, nb, (imgs.len() as int) / nb),
                        nb,
                        cfg.n_frames_per_chunk as int,
                        cfg.ticks_per_grp as int,
                        signals,
                        n,
                        (imgs.len() as int) / nb,
                    ),
                    (d * nb + k) * cfg.ticks_per_grp,
                    signals[i],
                ) == vals[d * nb + k][i]
        }),
{
    let nb = cfg.n_buf_frames as int;
    let vals = rgb_values(imgs);
    lemma_temporal_patch_state(st, imgs, n, cfg, signals, c);
    assert(spec_rgb_outputs(imgs[c]).len() == n);
    vstd::arithmetic::div_mod::lemma_fundamental_div_mod(c, nb);
    let r = c % nb;
    let q = c / nb;
    assert(vals.subrange(c - r, c).push(vals[c]) =~= vals.subrange(c - r, c + 1));
    if (c + 1) % nb == 0 {
        vstd::arithmetic::div_mod::lemma_fundamental_div_mod(c + 1, nb);
        if r + 1 < nb {
            vstd::arithmetic::div_mod::lemma_fundamental_div_mod_converse(c + 1, nb, q, r + 1);
        }
        assert(c - r == q * nb) by (nonlinear_arith)
            requires
                c == nb * q + r,
        ;
        assert(c + 1 == q * nb + nb);
    } else {
        if r + 1 == nb {
            assert(c + 1 == (q + 1) * nb + 0) by (nonlinear_arith)
                requires
                    c == nb * q + r,
                    r + 1 == nb,
            ;
            vstd::arithmetic::div_mod::lemma_fundamental_div_mod_converse(c + 1, nb, q + 1, 0);
        }
    }
    let m = (imgs.len() as int) / nb;
    let bufs = chunk_frames(vals, nb, m);
    vstd::arithmetic::div_mod::lemma_fundamental_div_mod(imgs.len() as int, nb);
    assert(m * nb <= imgs.len()) by (nonlinear_arith)
        requires
            imgs.len() as int == nb * m + (imgs.len() as int) % nb,
            (imgs.len() as int) % nb >= 0,
    ;
    assert forall|i: int, d: int, k: int|
        0 <= i < n && 0 <= d < m && 0 <= k < nb implies #[trigger] active_sum(
            temporal_run(bufs, nb, cfg.n_frames_per_chunk as int, cfg.ticks_per_grp as int, signals, n, m),
            (d * nb + k) * cfg.ticks_per_grp,
            signals[i],
        ) == vals[d * nb + k][i] by {
        assert(d * nb + nb <= m * nb) by (nonlinear_arith)
            requires
                d < m,
                nb >= 1,
        ;
        assert forall|e: int| 0 <= e < bufs.len() implies (#[trigger] bufs[e]).len() <= nb by {
            assert(e * nb + nb <= m * nb) by (nonlinear_arith)
                requires
                    e < m,
                    nb >= 1,
            ;
        }
        assert forall|e: int, j: int| 0 <= e < bufs.len() && 0 <= j < bufs[e].len() implies (#[trigger] bufs[e][j]).len()
            == n by {
            assert(e * nb + nb <= m * nb) by (nonlinear_arith)
                requires
                    e < m,
                    nb >= 1,
            ;
            assert(bufs[e][j] == vals[e * nb + j]);
            assert(vals[e * nb + j] == spec_rgb_outputs(imgs[e * nb + j]));
        }
        assert(bufs[d][k] == vals[d * nb + k]);
        lemma_temporal_run(bufs, nb, cfg.n_frames_per_chunk as int, cfg.ticks_per_grp as int, signals, n, m, d, k, i);
    }
}

// ---------------------------------------------------------------------------
// Filling in one group of lamps, frame by frame
// ---------------------------------------------------------------------------

/// The settings that decide how frames are packed into data combinators.
pub struct PatchConfig {
    pub gray_bits: u32,
    pub frames_per_cb: u32,
    pub use_delta_comp: bool,
    pub n_buf_frames: usize,
    pub n_frames_per_chunk: usize,
    pub ticks_per_grp: u32,
}

/// Per-group progress: which chunk is filled next, the grayscale frames not
/// yet packed, and the packed frames not yet written out.
pub struct GroupPatchState {
    pub chunk_i: usize,
    pub frame_buf: Vec<Vec<u8>>,
    pub sig_buf: Vec<Vec<i32>>,
}

/// The contents of the buffers.
pub open spec fn sigs_view(b: Seq<Vec<i32>>) -> Seq<Seq<i32>> {
    b.map_values(|v: Vec<i32>| v@)
}

/// A group's progress, as values.
pub struct PatchSpecState {
    pub chunk_i: int,
    pub frame_buf: Seq<Seq<u8>>,
    pub sig_buf: Seq<Seq<i32>>,
}

/// A data combinator to write: which one, its tick window and its outputs.
pub struct WindowSpec {
    pub comb: int,
    pub start: int,
    pub end: int,
    pub outs: Seq<CombinatorOutput>,
}

/// The result of handing one frame to a group.
pub struct PatchSpecResult {
    pub st: PatchSpecState,
    pub windows: Seq<WindowSpec>,
    pub err: Option<BlueprintError>,
}

/// The window that delta compression writes for chunk `c`: for a single
/// tick, the change from `prev` to `sigs`.
pub open spec fn delta_window(c: int, tpg: int, sigs: Seq<i32>, prev: Seq<i32>, signals: Seq<Signal>, n: int) -> WindowSpec {
    WindowSpec {
        comb: c,
        start: 1 + c * tpg,
        end: 2 + c * tpg,
        outs: masked_outputs(deltas(sigs, prev), Seq::new(n as nat, |i: int| true), signals, n),
    }
}

/// The windows that temporal compression writes for chunk `c` from the
/// buffered frames `buf`: one per frame with the pixels that change, then,
/// for more than one frame, one over the whole window with the pixels that
/// stay the same.
pub open spec fn temporal_windows(
    buf: Seq<Seq<i32>>,
    c: int,
    nb: int,
    nf: int,
    tpg: int,
    signals: Seq<Signal>,
    n: int,
) -> Seq<WindowSpec> {
    let base = c * nb;
    let mask = changed_mask(buf, n);
    let own = Seq::new(
        buf.len(),
        |k: int|
            WindowSpec {
                comb: c * (nb + nf) + k + nf,
                start: (base + k) * tpg,
                end: (base + k + 1) * tpg,
                outs: masked_outputs(buf[k], mask, signals, n),
            },
    );
    let still = if buf.len() > 1 {
        seq![WindowSpec {
            comb: c * (nb + nf),
            start: base * tpg,
            end: (base + buf.len()) * tpg,
            outs: masked_outputs(buf[0], not_mask(mask), signals, n),
        }]
    } else {
        Seq::<WindowSpec>::empty()
    };
    own + still
}

/// What handing the group image `img` (of `n` pixels) to a group does.
pub open spec fn patch_spec(
    st: PatchSpecState,
    img: Seq<u8>,
    n: int,
    is_last: bool,
    cfg: PatchConfig,
    signals: Seq<Signal>,
) -> PatchSpecResult {
    let buf0 = if cfg.use_delta_comp && st.sig_buf.len() == 0 {
        seq![Seq::new(n as nat, |i: int| 0i32)]
    } else {
        st.sig_buf
    };
    let fb = if cfg.gray_bits > 0 { st.frame_buf.push(img) } else { st.frame_buf };
    let waiting = cfg.gray_bits > 0 && fb.len() < cfg.frames_per_cb && !is_last;
    let bad_bits = cfg.gray_bits > 0 && !valid_gray_bits(cfg.gray_bits);
    if waiting {
        PatchSpecResult {
            st: PatchSpecState { chunk_i: st.chunk_i, frame_buf: fb, sig_buf: buf0 },
            windows: Seq::empty(),
            err: None,
        }
    } else if bad_bits {
        PatchSpecResult {
            st: PatchSpecState { chunk_i: st.chunk_i, frame_buf: fb, sig_buf: buf0 },
            windows: Seq::empty(),
            err: Some(BlueprintError::UnsupportedGrayscaleBitDepth),
        }
    } else {
        let sigs = if cfg.gray_bits > 0 { packed_gray(fb, cfg.gray_bits) } else { spec_rgb_outputs(img) };
        let fb1 = if cfg.gray_bits > 0 { Seq::<Seq<u8>>::empty() } else { fb };
        if sigs.len() != n {
            PatchSpecResult {
                st: PatchSpecState { chunk_i: st.chunk_i, frame_buf: fb1, sig_buf: buf0 },
                windows: Seq::empty(),
                err: Some(BlueprintError::OutputsLengthMismatch { outputs: sigs.len() as usize, expected: n as usize }),
            }
        } else {
            let buf1 = if !cfg.use_delta_comp { buf0.push(sigs) } else { buf0 };
            if buf1.len() < cfg.n_buf_frames && !is_last {
                PatchSpecResult {
                    st: PatchSpecState { chunk_i: st.chunk_i, frame_buf: fb1, sig_buf: buf1 },
                    windows: Seq::empty(),
                    err: None,
                }
            } else if cfg.use_delta_comp {
                PatchSpecResult {
                    st: PatchSpecState { chunk_i: st.chunk_i + 1, frame_buf: fb1, sig_buf: buf1.update(0, sigs) },
                    windows: seq![delta_window(st.chunk_i, cfg.ticks_per_grp as int, sigs, buf1[0], signals, n)],
                    err: None,
                }
            } else {
                PatchSpecResult {
                    st: PatchSpecState { chunk_i: st.chunk_i + 1, frame_buf: fb1, sig_buf: Seq::empty() },
                    windows: temporal_windows(
                        buf1,
                        st.chunk_i,
                        cfg.n_buf_frames as int,
                        cfg.n_frames_per_chunk as int,
                        cfg.ticks_per_grp as int,
                        signals,
                        n,
                    ),
                    err: None,
                }
            }
        }
    }
}

/// The group's progress, as values.
pub open spec fn patch_state_view(st: GroupPatchState) -> PatchSpecState {
    PatchSpecState {
        chunk_i: st.chunk_i as int,
        frame_buf: rasters_view(st.frame_buf@),
        sig_buf: sigs_view(st.sig_buf@),
    }
}

/// A group state that can take a frame of `n` pixels: every buffered frame
/// has `n` pixels, and the buffers are below their flush sizes.
pub open spec fn patch_ready(st: PatchSpecState, n: int, cfg: PatchConfig) -> bool {
    &&& forall|k: int| 0 <= k < st.frame_buf.len() ==> (#[trigger] st.frame_buf[k]).len() == n
    &&& forall|k: int| 0 <= k < st.sig_buf.len() ==> (#[trigger] st.sig_buf[k]).len() == n
    &&& st.frame_buf.len() < cfg.frames_per_cb
    &&& valid_gray_bits(cfg.gray_bits) ==> cfg.frames_per_cb * cfg.gray_bits <= 32
    &&& cfg.use_delta_comp ==> st.sig_buf.len() <= 1
    &&& !cfg.use_delta_comp ==> st.sig_buf.len() < cfg.n_buf_frames
}

/// Every window names an existing data combinator and ends within the tick
/// range.
pub open spec fn windows_in_range(ws: Seq<WindowSpec>, n_combs: int) -> bool {
    forall|k: int|
        0 <= k < ws.len() ==> 0 <= (#[trigger] ws[k]).comb < n_combs
            && 0 <= ws[k].start <= ws[k].end <= u32::MAX
}

/// Every window of `res` names an existing data combinator and ends within
/// the tick range.
pub open spec fn windows_fit(res: PatchSpecResult, n_combs: int) -> bool {
    windows_in_range(res.windows, n_combs)
}

/// `new` is `old` followed by one data combinator per window.
pub open spec fn windows_written(old: Seq<Entity>, new: Seq<Entity>, windows: Seq<WindowSpec>, data_combs: Seq<Entity>) -> bool {
    &&& new.len() == old.len() + windows.len()
    &&& new.take(old.len() as int) == old
    &&& forall|k: int|
        0 <= k < windows.len() ==> is_window_comb(
            #[trigger] new[old.len() + k],
            data_combs[windows[k].comb],
            windows[k].start,
            windows[k].end,
            windows[k].outs,
        )
}

/// Writes the delta window of chunk `c` and makes `sigs` the frame that the
/// next delta is taken from.
fn flush_delta(
    sig_buf: &mut Vec<Vec<i32>>,
    frame_sigs: Vec<i32>,
    c: usize,
    tpg: u32,
    data_combs: &Vec<Entity>,
    signals: &[Signal],
    output_ents: &mut Vec<Entity>,
)
    requires
        old(sig_buf)@.len() >= 1,
        old(sig_buf)@[0]@.len() == frame_sigs@.len(),
        signals@.len() >= frame_sigs@.len(),
        windows_in_range(
            seq![delta_window(c as int, tpg as int, frame_sigs@, old(sig_buf)@[0]@, signals@, frame_sigs@.len() as int)],
            data_combs@.len() as int,
        ),
    ensures
        sigs_view(final(sig_buf)@) == sigs_view(old(sig_buf)@).update(0, frame_sigs@),
        windows_written(
            old(output_ents)@,
            final(output_ents)@,
            seq![delta_window(c as int, tpg as int, frame_sigs@, old(sig_buf)@[0]@, signals@, frame_sigs@.len() as int)],
            data_combs@,
        ),
{
    let ghost n = frame_sigs@.len() as int;
    let ghost w = delta_window(c as int, tpg as int, frame_sigs@, sig_buf@[0]@, signals@, n);
    let len = frame_sigs.len();
    let mut all: Vec<bool> = Vec::new();
    let mut d: Vec<i32> = Vec::new();
    let mut i: usize = 0;
    while i < len
        invariant
            0 <= i <= len,
            len == frame_sigs@.len(),
            sig_buf@.len() >= 1,
            sig_buf@[0]@.len() == len,
            all@ == Seq::new(i as nat, |j: int| true),
            d@ == deltas(frame_sigs@, sig_buf@[0]@).take(i as int),
        decreases len - i,
    {
        // Factorio's counts wrap around, so any change is one addition.
        d.push(frame_sigs[i].wrapping_sub(sig_buf[0][i]));
        all.push(true);
        proof {
            assert(all@ =~= Seq::new((i + 1) as nat, |j: int| true));
            assert(d@ =~= deltas(frame_sigs@, sig_buf@[0]@).take(i + 1));
        }
        i += 1;
    }
    proof {
        assert(d@ =~= deltas(frame_sigs@, sig_buf@[0]@));
        assert(seq![w][0] == w);
        assert(0 <= w.comb < data_combs@.len());
        assert(w.end <= u32::MAX);
        if tpg > 0 {
            assert(c * tpg >= c) by (nonlinear_arith)
                requires
                    tpg >= 1,
                    c >= 0,
            ;
        }
        assert((c as u32) * tpg == c * tpg) by (nonlinear_arith)
            requires
                tpg == 0 || c <= u32::MAX,
        ;
    }
    let target_outputs = collect_outputs(&d, &all, signals);
    let en = &data_combs[c];
    let start = 1 + (c as u32) * tpg;
    let end = 2 + (c as u32) * tpg;
    let ghost before = output_ents@;
    output_ents.push(en.clone_with_control_behavior(mk_cb(start, end, target_outputs)));
    proof {
        assert(output_ents@.take(before.len() as int) =~= before);
        assert(all@ =~= Seq::new(n as nat, |i: int| true));
        assert(output_ents@[before.len() + 0int] == output_ents@[before.len() as int]);
    }
    sig_buf.set(0, frame_sigs);
    proof {
        assert(sigs_view(sig_buf@) =~= sigs_view(old(sig_buf)@).update(0, frame_sigs@));
    }
}

/// The change mask of the buffered frames, computed.
fn compute_changed_mask(sig_buf: &Vec<Vec<i32>>, n: usize) -> (mask: Vec<bool>)
    requires
        sig_buf@.len() >= 1,
        forall|k: int| 0 <= k < sig_buf@.len() ==> (#[trigger] sig_buf@[k])@.len() == n,
    ensures
        mask@ == changed_mask(sigs_view(sig_buf@), n as int),
{
    let m = sig_buf.len();
    let mut mask: Vec<bool> = Vec::new();
    let mut i: usize = 0;
    while i < n
        invariant
            0 <= i <= n,
            m == sig_buf@.len() >= 1,
            forall|k: int| 0 <= k < m ==> (#[trigger] sig_buf@[k])@.len() == n,
            mask@ == changed_mask(sigs_view(sig_buf@), n as int).take(i as int),
        decreases n - i,
    {
        let mut changed = false;
        if m > 1 {
            let mut k: usize = 1;
            while k < m
                invariant
                    1 <= k <= m,
                    i < n,
                    m == sig_buf@.len() > 1,
                    forall|q: int| 0 <= q < m ==> (#[trigger] sig_buf@[q])@.len() == n,
                    changed == exists|q: int|
                        1 <= q < k && #[trigger] sig_buf@[q]@[i as int] != sig_buf@[0]@[i as int],
                decreases m - k,
            {
                if sig_buf[k][i] != sig_buf[0][i] {
                    changed = true;
                }
                k += 1;
            }
            proof {
                let bv = sigs_view(sig_buf@);
                if changed {
                    let q = choose|q: int|
                        1 <= q < m && #[trigger] sig_buf@[q]@[i as int] != sig_buf@[0]@[i as int];
                    assert(bv[q][i as int] != bv[0][i as int]);
                } else {
                    assert forall|q: int| 1 <= q < bv.len() implies !(#[trigger] bv[q][i as int]
                        != bv[0][i as int]) by {
                        assert(bv[q] == sig_buf@[q]@);
                    }
                }
            }
        } else {
            changed = true;
        }
        mask.push(changed);
        proof {
            assert(mask@ =~= changed_mask(sigs_view(sig_buf@), n as int).take(i + 1));
        }
        i += 1;
    }
    proof {
        assert(mask@ =~= changed_mask(sigs_view(sig_buf@), n as int));
    }
    mask
}

/// Writes the windows of chunk `c` from the buffered frames and empties the
/// buffer.
fn flush_temporal(
    sig_buf: &mut Vec<Vec<i32>>,
    n: usize,
    c: usize,
    nb: usize,
    nf: usize,
    tpg: u32,
    data_combs: &Vec<Entity>,
    signals: &[Signal],
    output_ents: &mut Vec<Entity>,
)
    requires
        1 <= old(sig_buf)@.len() <= nb,
        forall|k: int| 0 <= k < old(sig_buf)@.len() ==> (#[trigger] old(sig_buf)@[k])@.len() == n,
        signals@.len() >= n,
        (c + 1) * nb <= u32::MAX,
        windows_in_range(
            temporal_windows(sigs_view(old(sig_buf)@), c as int, nb as int, nf as int, tpg as int, signals@, n as int),
            data_combs@.len() as int,
        ),
    ensures
        final(sig_buf)@.len() == 0,
        windows_written(
            old(output_ents)@,
            final(output_ents)@,
            temporal_windows(sigs_view(old(sig_buf)@), c as int, nb as int, nf as int, tpg as int, signals@, n as int),
            data_combs@,
        ),
{
    let n_combs = data_combs.len();
    let ghost buf = sigs_view(sig_buf@);
    let ghost ws = temporal_windows(buf, c as int, nb as int, nf as int, tpg as int, signals@, n as int);
    let ghost mask = changed_mask(buf, n as int);
    let m = sig_buf.len();
    let changed = compute_changed_mask(sig_buf, n);
    proof {
        assert(c * nb + nb == (c + 1) * nb) by (nonlinear_arith);
        assert(c * nb >= 0) by (nonlinear_arith)
            requires
                c >= 0,
                nb >= 0,
        ;
        assert(ws.len() == m + (if m > 1 { 1int } else { 0int }));
    }
    let base_chunk_i = c * nb;
    let ghost before = output_ents@;
    proof {
        lemma_no_windows(before);
        assert(ws.take(0) =~= Seq::<WindowSpec>::empty());
    }
    // Pixels that change within the window, one combinator per frame.
    let mut cb_i: usize = 0;
    while cb_i < m
        invariant
            0 <= cb_i <= m,
            m == sig_buf@.len() == buf.len(),
            m <= nb,
            buf == sigs_view(sig_buf@),
            forall|k: int| 0 <= k < m ==> (#[trigger] sig_buf@[k])@.len() == n,
            changed@ == mask,
            mask == changed_mask(buf, n as int),
            signals@.len() >= n,
            base_chunk_i == c * nb,
            c * nb + nb <= u32::MAX,
            ws == temporal_windows(buf, c as int, nb as int, nf as int, tpg as int, signals@, n as int),
            ws.len() == m + (if m > 1 { 1int } else { 0int }),
            windows_in_range(ws, data_combs@.len() as int),
            windows_written(before, output_ents@, ws.take(cb_i as int), data_combs@),
            n_combs == data_combs@.len(),
        decreases m - cb_i,
    {
        let target_outputs = collect_outputs(&sig_buf[cb_i], &changed, signals);
        let ghost w = ws[cb_i as int];
        proof {
            assert(w.comb == c * (nb + nf) + cb_i + nf);
            assert(0 <= w.comb < data_combs@.len());
            assert(0 <= w.start <= w.end <= u32::MAX);
            assert(c * (nb + nf) == c * nb + c * nf) by (nonlinear_arith);
            assert(c * nf >= 0) by (nonlinear_arith)
                requires
                    c >= 0,
                    nf >= 0,
            ;
            assert(c * nb + c * nf + cb_i + nf < n_combs);
            assert(w.end == (c * nb + cb_i + 1) * tpg);
            assert(w.start == (c * nb + cb_i) * tpg);
        }
        let target_i = base_chunk_i + cb_i;
        let target_comb = c * nb + c * nf + cb_i + nf;
        let en = &data_combs[target_comb];
        let start = (target_i as u32) * tpg;
        let end = (target_i as u32 + 1) * tpg;
        let ghost prev_out = output_ents@;
        output_ents.push(en.clone_with_control_behavior(mk_cb(start, end, target_outputs)));
        proof {
            assert(ws.take(cb_i + 1) =~= ws.take(cb_i as int).push(w));
            assert(output_ents@.take(before.len() as int) =~= prev_out.take(before.len() as int));
            assert(sig_buf@[cb_i as int]@ == buf[cb_i as int]);
            assert forall|k: int| 0 <= k < cb_i + 1 implies is_window_comb(
                #[trigger] output_ents@[before.len() + k],
                data_combs@[ws.take(cb_i + 1)[k].comb],
                ws.take(cb_i + 1)[k].start,
                ws.take(cb_i + 1)[k].end,
                ws.take(cb_i + 1)[k].outs,
            ) by {
                if k < cb_i {
                    assert(output_ents@[before.len() + k] == prev_out[before.len() + k]);
                    assert(ws.take(cb_i + 1)[k] == ws.take(cb_i as int)[k]);
                }
            }
        }
        cb_i += 1;
    }
    // Pixels that stay the same, one combinator for the whole window.
    if m > 1 {
        let mut not_changed: Vec<bool> = Vec::new();
        let mut i: usize = 0;
        while i < n
            invariant
                0 <= i <= n,
                changed@.len() == n,
                not_changed@ == not_mask(changed@).take(i as int),
            decreases n - i,
        {
            not_changed.push(!changed[i]);
            proof {
                assert(not_changed@ =~= not_mask(changed@).take(i + 1));
            }
            i += 1;
        }
        proof {
            assert(not_changed@ =~= not_mask(changed@));
        }
        let target_outputs = collect_outputs(&sig_buf[0], &not_changed, signals);
        let ghost w = ws[m as int];
        proof {
            assert(0 <= w.comb < data_combs@.len());
            assert(0 <= w.start <= w.end <= u32::MAX);
            assert(w.comb == c * (nb + nf));
            assert(c * (nb + nf) == c * nb + c * nf) by (nonlinear_arith);
            assert(c * nf >= 0) by (nonlinear_arith)
                requires
                    c >= 0,
                    nf >= 0,
            ;
            assert(c * nb + c * nf < n_combs);
            assert(w.start == (c * nb) * tpg);
            assert(w.end == (c * nb + m) * tpg);
        }
        let en = &data_combs[c * nb + c * nf];
        let start = (base_chunk_i as u32) * tpg;
        let end = (base_chunk_i as u32 + m as u32) * tpg;
        let ghost prev_out = output_ents@;
        output_ents.push(en.clone_with_control_behavior(mk_cb(start, end, target_outputs)));
        proof {
            assert(ws.take(m + 1) =~= ws.take(m as int).push(w));
            assert(ws.take(m + 1) =~= ws);
            assert(output_ents@.take(before.len() as int) =~= prev_out.take(before.len() as int));
            assert(sig_buf@[0]@ == buf[0]);
            assert forall|k: int| 0 <= k < m + 1 implies is_window_comb(
                #[trigger] output_ents@[before.len() + k],
                data_combs@[ws[k].comb],
                ws[k].start,
                ws[k].end,
                ws[k].outs,
            ) by {
                if k < m {
                    assert(output_ents@[before.len() + k] == prev_out[before.len() + k]);
                    assert(ws.take(m as int)[k] == ws[k]);
                }
            }
        }
    } else {
        proof {
            assert(ws.take(m as int) =~= ws);
        }
    }
    sig_buf.clear();
}

/// Hands the image of one group of lamps for one frame to that group.
///
/// Grayscale frames are gathered until a data combinator's worth is there;
/// packed frames are gathered until a compression window is full (or the
/// frame is the last one). Then the data combinators of the chunk are set:
/// with delta compression, one combinator that adds the change since the
/// previous chunk for a single tick; otherwise one combinator per buffered
/// frame with the pixels that change within the window, and one for the
/// whole window with the pixels that stay the same.
pub fn patch_group(
    state: &mut GroupPatchState,
    img: Raster,
    is_last_frame: bool,
    cfg: &PatchConfig,
    data_combs: &Vec<Entity>,
    signals: &[Signal],
    output_ents: &mut Vec<Entity>,
) -> (r: Result<(), BlueprintError>)
    requires
        img.wf(if cfg.gray_bits > 0 { 1int } else { 3int }),
        patch_ready(patch_state_view(*old(state)), (img.width * img.height) as int, *cfg),
        signals@.len() >= img.width * img.height,
        windows_fit(
            patch_spec(
                patch_state_view(*old(state)),
                img.data@,
                (img.width * img.height) as int,
                is_last_frame,
                *cfg,
                signals@,
            ),
            data_combs@.len() as int,
        ),
        (old(state).chunk_i + 1) * cfg.n_buf_frames <= u32::MAX,
    ensures
        ({
            let res = patch_spec(
                patch_state_view(*old(state)),
                img.data@,
                (img.width * img.height) as int,
                is_last_frame,
                *cfg,
                signals@,
            );
            &&& patch_state_view(*final(state)) == res.st
            &&& match res.err {
                None => r is Ok,
                Some(e) => r == Err::<(), BlueprintError>(e),
            }
            &&& windows_written(old(output_ents)@, final(output_ents)@, res.windows, data_combs@)
        }),
{
    let ghost st0 = patch_state_view(*state);
    let ghost n = (img.width * img.height) as int;
    let ghost res = patch_spec(st0, img.data@, n, is_last_frame, *cfg, signals@);
    proof {
        lemma_no_windows(output_ents@);
    }
    let channels: usize = if cfg.gray_bits > 0 { 1 } else { 3 };
    let target_outputs_len = img.data.len() / channels;
    proof {
        assert(target_outputs_len == n) by (nonlinear_arith)
            requires
                img.data@.len() == img.width * img.height * channels,
                target_outputs_len == img.data@.len() / (channels as nat),
                n == img.width * img.height,
                channels >= 1,
        ;
    }
    if cfg.use_delta_comp && state.sig_buf.len() == 0 {
        let mut zeros: Vec<i32> = Vec::new();
        let mut i: usize = 0;
        while i < target_outputs_len
            invariant
                0 <= i <= target_outputs_len,
                zeros@ == Seq::new(i as nat, |j: int| 0i32),
            decreases target_outputs_len - i,
        {
            zeros.push(0);
            proof {
                assert(zeros@ =~= Seq::new((i + 1) as nat, |j: int| 0i32));
            }
            i += 1;
        }
        state.sig_buf.push(zeros);  // The first delta is taken from all zeros.
    }
    let ghost buf0 = sigs_view(state.sig_buf@);
    proof {
        assert(buf0 =~= if cfg.use_delta_comp && st0.sig_buf.len() == 0 {
            seq![Seq::new(n as nat, |i: int| 0i32)]
        } else {
            st0.sig_buf
        });
        assert forall|k: int| 0 <= k < buf0.len() implies (#[trigger] buf0[k]).len() == n by {
            if !(cfg.use_delta_comp && st0.sig_buf.len() == 0) {
                assert(buf0[k] == st0.sig_buf[k]);
            }
        }
    }
    let frame_sigs: Vec<i32>;
    if cfg.gray_bits > 0 {
        state.frame_buf.push(img.data);
        proof {
            assert(rasters_view(state.frame_buf@) =~= st0.frame_buf.push(img.data@));
        }
        if state.frame_buf.len() < cfg.frames_per_cb as usize && !is_last_frame {
            return Ok(());  // wait until a combinator's worth of frames is there
        }
        if !(cfg.gray_bits == 1 || cfg.gray_bits == 4 || cfg.gray_bits == 8) {
            return Err(BlueprintError::UnsupportedGrayscaleBitDepth);
        }
        proof {
            let fb = rasters_view(state.frame_buf@);
            assert(fb.len() <= cfg.frames_per_cb);
            assert(fb.len() * cfg.gray_bits <= 32) by (nonlinear_arith)
                requires
                    fb.len() <= cfg.frames_per_cb,
                    cfg.frames_per_cb * cfg.gray_bits <= 32,
            ;
            assert forall|j: int| 0 <= j < fb.len() implies fb[0].len() <= (#[trigger] fb[j]).len() by {
                if j < st0.frame_buf.len() {
                    assert(fb[j] == st0.frame_buf[j]);
                }
                if 0 < st0.frame_buf.len() {
                    assert(fb[0] == st0.frame_buf[0]);
                }
            }
        }
        frame_sigs = match grayscale_frames_to_outputs(state.frame_buf.as_slice(), cfg.gray_bits) {
            Ok(v) => v,
            Err(e) => {
                return Err(e);
            },
        };
        state.frame_buf.clear();
        proof {
            assert(rasters_view(state.frame_buf@) =~= Seq::<Seq<u8>>::empty());
        }
    } else {
        frame_sigs = match color_frame_to_outputs(img.data.as_slice()) {
            Ok(v) => v,
            Err(e) => {
                return Err(e);
            },
        };
    }
    if frame_sigs.len() != target_outputs_len {
        return Err(
            BlueprintError::OutputsLengthMismatch {
                outputs: frame_sigs.len(),
                expected: target_outputs_len,
            },
        );
    }
    if !cfg.use_delta_comp {
        // Delta compression only compares against the previous frame.
        let copy = copy_sigs(&frame_sigs);
        state.sig_buf.push(copy);
    }
    let ghost buf1 = sigs_view(state.sig_buf@);
    proof {
        if !cfg.use_delta_comp {
            assert(buf1 =~= buf0.push(frame_sigs@));
        } else {
            assert(buf1 =~= buf0);
        }
        assert(rasters_view(state.frame_buf@) == res.st.frame_buf);
    }
    if state.sig_buf.len() < cfg.n_buf_frames && !is_last_frame {
        return Ok(());  // gather until the window is full
    }
    let n_combs = data_combs.len();
    proof {
        if cfg.use_delta_comp {
            assert(res.windows[0].comb == st0.chunk_i);
            assert(st0.chunk_i < n_combs);
        } else {
            assert(st0.chunk_i + 1 <= (st0.chunk_i + 1) * cfg.n_buf_frames) by (nonlinear_arith)
                requires
                    cfg.n_buf_frames >= 1,
                    st0.chunk_i >= 0,
            ;
        }
    }
    if cfg.use_delta_comp {
        flush_delta(
            &mut state.sig_buf,
            frame_sigs,
            state.chunk_i,
            cfg.ticks_per_grp,
            data_combs,
            signals,
            output_ents,
        );
    } else {
        proof {
            assert forall|k: int| 0 <= k < state.sig_buf@.len() implies (#[trigger] state.sig_buf@[k])@.len() == n by {
                assert(state.sig_buf@[k]@ == buf1[k]);
            }
        }
        flush_temporal(
            &mut state.sig_buf,
            target_outputs_len,
            state.chunk_i,
            cfg.n_buf_frames,
            cfg.n_frames_per_chunk,
            cfg.ticks_per_grp,
            data_combs,
            signals,
            output_ents,
        );
        proof {
            assert(sigs_view(state.sig_buf@) =~= Seq::<Seq<i32>>::empty());
        }
    }
    state.chunk_i += 1;
    Ok(())
}

proof fn lemma_no_windows(ents: Seq<Entity>)
    ensures
        forall|ds: Seq<Entity>| windows_written(ents, ents, Seq::<WindowSpec>::empty(), ds),
{
    assert(ents.take(ents.len() as int) =~= ents);
}

/// A copy of packed frame values.
fn copy_sigs(v: &Vec<i32>) -> (r: Vec<i32>)
    ensures
        r@ == v@,
{
    let mut r: Vec<i32> = Vec::new();
    let mut i: usize = 0;
    while i < v.len()
        invariant
            0 <= i <= v@.len(),
            r@ == v@.take(i as int),
        decreases v@.len() - i,
    {
        r.push(v[i]);
        proof {
            assert(r@ =~= v@.take(i + 1));
        }
        i += 1;
    }
    proof {
        assert(r@ =~= v@);
    }
    r
}

// ---------------------------------------------------------------------------
// The generator
// ---------------------------------------------------------------------------

/// Entities and wires are written out in chunks of this many.
pub const ENCODE_CHUNK_SIZE: usize = 1000;

/// Where the generator is in writing the blueprint.
#[derive(Clone, Copy, Debug, PartialEq, Eq, Structural)]
pub enum BlueprintState {
    Start,
    Entities,
    Data,
    Wires,
    Finished,
}

/// A piece of the blueprint's JSON text: text as it is, or a value written
/// as JSON without its outermost brackets or braces.
pub enum Piece {
    Text(String),
    Header(BlueprintInner),
    Entities(Vec<Entity>),
    Wires(Vec<Wire>),
}

/// The entities and wires written after the data.
pub struct EntityData {
    pub ents: Vec<Entity>,
    pub wires: Vec<Wire>,
    pub next_ent_n: u32,
}

/// The length of the temporal compression window in milliseconds (0: none).
pub open spec fn temporal_window(c: Option<SignalCompression>) -> int {
    match c {
        Some(SignalCompression::Temporal { window }) => window as int,
        _ => 0,
    }
}

/// Game ticks per frame at `fps` frames per second (60 ticks a second);
/// the largest count for no frame rate.
pub open spec fn spec_ticks_per_frame(fps: u32) -> int {
    if fps == 0 {
        u32::MAX as int
    } else {
        60int / (fps as int)
    }
}

/// Frames packed into one data combinator.
pub open spec fn spec_frames_per_cb(gray_bits: u32) -> int {
    if gray_bits > 0 {
        32int / (gray_bits as int)
    } else {
        1
    }
}

/// `a / b` rounded up.
pub open spec fn spec_div_ceil(a: int, b: int) -> int {
    (a + b - 1) / b
}

/// Packed frames gathered before a chunk is compressed.
pub open spec fn spec_n_buf_frames(args: BlueprintArgs) -> int {
    let win = temporal_window(args.signal_compression);
    if win > 0 {
        spec_div_ceil(win * args.target_fps, 1000 * spec_frames_per_cb(args.grayscale_bits))
    } else {
        1
    }
}

/// The widest a group of lamps may be: as many columns as the signals fill
/// at full height, and no more than asked for.
pub open spec fn spec_max_cols(n_signals: int, width: u32, height: u32, args: BlueprintArgs) -> int {
    let by_signals = (n_signals as u32) / height;
    let limit = match args.max_group_size {
        Some(m) => m,
        None => width,
    };
    if by_signals < limit {
        by_signals as int
    } else {
        limit as int
    }
}

/// The number of lamp columns per group: as many as the signals allow for
/// the height, but no more than the group size asked for (by default the
/// whole width).
pub fn max_cols_for(n_signals: usize, width: u32, height: u32, args: &BlueprintArgs) -> (m: u32)
    requires
        height >= 1,
    ensures
        m == spec_max_cols(n_signals as int, width, height, *args),
{
    let by_signals: u32 = (n_signals as u32) / height;
    let limit: u32 = match args.max_group_size {
        Some(m) => m,
        None => width,
    };
    if by_signals < limit {
        by_signals
    } else {
        limit
    }
}

/// The width of group `g` of lamps: full, or what is left at the right edge.
pub open spec fn group_width(g: int, max_cols: int, width: int) -> int {
    if max_cols < width - g * max_cols {
        max_cols
    } else {
        width - g * max_cols
    }
}

/// The bytes per pixel of the frames handed in: one for grayscale, three
/// for colour.
pub open spec fn frame_channels(gray_bits: u32) -> int {
    if gray_bits > 0 {
        1
    } else {
        3
    }
}

/// The image of group `g` in a frame.
pub open spec fn group_image(frame: Raster, gray_bits: u32, g: int, max_cols: int) -> Seq<u8> {
    crate::blueprint::util::spec_crop(
        frame,
        frame_channels(gray_bits),
        g * max_cols,
        0,
        group_width(g, max_cols, frame.width as int),
        frame.height as int,
    )
}

/// The data combinators that a group's next chunk needs all exist, and its
/// tick windows end within range (`m` frames in the window).
pub open spec fn chunk_fits(st: PatchSpecState, cfg: PatchConfig, n_combs: int) -> bool {
    let c = st.chunk_i;
    let nb = cfg.n_buf_frames as int;
    let nf = cfg.n_frames_per_chunk as int;
    let tpg = cfg.ticks_per_grp as int;
    let m = st.sig_buf.len() + 1;
    if cfg.use_delta_comp {
        c < n_combs && 2 + c * tpg <= u32::MAX
    } else {
        c * (nb + nf) + m - 1 + nf < n_combs && (c * nb + m) * tpg <= u32::MAX
    }
}

/// Windows of a chunk that fits fit.
pub(crate) proof fn lemma_windows_fit(
    st: PatchSpecState,
    img: Seq<u8>,
    n: int,
    is_last: bool,
    cfg: PatchConfig,
    signals: Seq<Signal>,
    n_combs: int,
)
    requires
        patch_ready(st, n, cfg),
        chunk_fits(st, cfg, n_combs),
        st.chunk_i >= 0,
        n >= 0,
    ensures
        windows_fit(patch_spec(st, img, n, is_last, cfg, signals), n_combs),
{
    let res = patch_spec(st, img, n, is_last, cfg, signals);
    let c = st.chunk_i;
    let nb = cfg.n_buf_frames as int;
    let nf = cfg.n_frames_per_chunk as int;
    let tpg = cfg.ticks_per_grp as int;
    if res.windows.len() > 0 {
        if cfg.use_delta_comp {
            assert(c * tpg >= 0) by (nonlinear_arith)
                requires
                    c >= 0,
                    tpg >= 0,
            ;
        } else {
            let m = st.sig_buf.len() + 1;
            let ws = res.windows;
            assert forall|k: int| 0 <= k < ws.len() implies 0 <= (#[trigger] ws[k]).comb < n_combs
                && 0 <= ws[k].start <= ws[k].end <= u32::MAX by {
                assert(c * (nb + nf) >= 0) by (nonlinear_arith)
                    requires
                        c >= 0,
                        nb + nf >= 0,
                ;
                if k < m {
                    assert((c * nb + k) * tpg >= 0) by (nonlinear_arith)
                        requires
                            c >= 0,
                            nb >= 0,
                            k >= 0,
                            tpg >= 0,
                    ;
                    assert((c * nb + k) * tpg <= (c * nb + k + 1) * tpg) by (nonlinear_arith)
                        requires
                            tpg >= 0,
                    ;
                    assert((c * nb + k + 1) * tpg <= (c * nb + m) * tpg) by (nonlinear_arith)
                        requires
                            tpg >= 0,
                            k + 1 <= m,
                    ;
                } else {
                    assert((c * nb) * tpg >= 0) by (nonlinear_arith)
                        requires
                            c >= 0,
                            nb >= 0,
                            tpg >= 0,
                    ;
                    assert((c * nb) * tpg <= (c * nb + m) * tpg) by (nonlinear_arith)
                        requires
                            tpg >= 0,
                            m >= 0,
                    ;
                }
            }
        }
    }
}

/// A group that takes a frame without error can take the next one.
pub(crate) proof fn lemma_patch_ready_kept(
    st: PatchSpecState,
    img: Seq<u8>,
    n: int,
    is_last: bool,
    cfg: PatchConfig,
    signals: Seq<Signal>,
)
    requires
        patch_ready(st, n, cfg),
        cfg.gray_bits > 0 ==> img.len() == n,
        cfg.gray_bits == 0 ==> cfg.frames_per_cb == 1,
        cfg.n_buf_frames >= 1,
        patch_spec(st, img, n, is_last, cfg, signals).err is None,
    ensures
        patch_ready(patch_spec(st, img, n, is_last, cfg, signals).st, n, cfg),
{
    let res = patch_spec(st, img, n, is_last, cfg, signals);
    let fb = if cfg.gray_bits > 0 { st.frame_buf.push(img) } else { st.frame_buf };
    assert forall|k: int| 0 <= k < fb.len() implies (#[trigger] fb[k]).len() == n by {
        if k < st.frame_buf.len() {
            assert(fb[k] == st.frame_buf[k]);
        }
    }
    let buf0 = if cfg.use_delta_comp && st.sig_buf.len() == 0 {
        seq![Seq::new(n as nat, |i: int| 0i32)]
    } else {
        st.sig_buf
    };
    assert forall|k: int| 0 <= k < buf0.len() implies (#[trigger] buf0[k]).len() == n by {
        if !(cfg.use_delta_comp && st.sig_buf.len() == 0) {
            assert(buf0[k] == st.sig_buf[k]);
        }
    }
    let waiting = cfg.gray_bits > 0 && fb.len() < cfg.frames_per_cb && !is_last;
    if !waiting {
        let sigs = if cfg.gray_bits > 0 { packed_gray(fb, cfg.gray_bits) } else { spec_rgb_outputs(img) };
        let buf1 = if !cfg.use_delta_comp { buf0.push(sigs) } else { buf0 };
        assert forall|k: int| 0 <= k < buf1.len() implies (#[trigger] buf1[k]).len() == n by {
            if k < buf0.len() {
                assert(buf1[k] == buf0[k]);
            }
        }
        if cfg.use_delta_comp && !(buf1.len() < cfg.n_buf_frames && !is_last) {
            let nb = buf1.update(0, sigs);
            assert forall|k: int| 0 <= k < nb.len() implies (#[trigger] nb[k]).len() == n by {
                if k != 0 {
                    assert(nb[k] == buf1[k]);
                }
            }
        }
    }
}

/// Settings the generator can run with: every product it forms fits.
pub open spec fn generator_ok(total_frames: u32, width: u32, height: u32, args: BlueprintArgs) -> bool {
    let win = temporal_window(args.signal_compression);
    &&& 1 <= width <= 0x8000_0000
    &&& 1 <= height <= 0x8000_0000
    &&& args.grayscale_bits <= 32
    &&& win * args.target_fps <= u32::MAX
    &&& win > 0 ==> args.target_fps >= 1
    &&& 2 * total_frames <= u32::MAX
    &&& total_frames * spec_ticks_per_frame(args.target_fps) <= u32::MAX
    &&& spec_ticks_per_frame(args.target_fps) * spec_frames_per_cb(args.grayscale_bits) <= u32::MAX
}

/// Turns frames into a blueprint, a chunk at a time: the header, the lamps
/// of each group, the data of every frame, the remaining entities, and the
/// wires.
/// `t` is the timer, with its wires, whose counter resets at tick `stop`:
/// its second entity passes `signal-T` on while `signal-T < stop`.
pub open spec fn timer_with_stop(
    t: Seq<Entity>,
    stop: u32,
    gray_bits: u32,
    ticks_per_frame: u32,
    frames_per_comb: u32,
) -> bool {
    &&& is_timer(t, timer_wires(gray_bits > 0), stop, gray_bits, ticks_per_frame, frames_per_comb)
    &&& t.len() >= 2
    &&& t[1].entity_number == 2
    &&& counter_stops_at(t[1], stop)
}

/// `e` is a decider whose one condition is `signal-T < stop`.
pub open spec fn counter_stops_at(e: Entity, stop: u32) -> bool {
    match e.control_behavior {
        Some(ControlBehavior::Decider { decider_conditions: d }) => match d.conditions {
            Some(cs) => {
                &&& cs@.len() == 1
                &&& cs@[0].constant == Some(stop as i32)
                &&& (match cs@[0].comparator {
                    Some(c) => c@ == "<"@,
                    None => false,
                })
                &&& (match cs@[0].first_signal {
                    Some(sg) => sg.name@ == "signal-T"@,
                    None => false,
                })
            },
            None => false,
        },
        _ => false,
    }
}

/// How far laying out the groups of lamps has come: the next free entity
/// number, the substation grid points asked for, and the error that
/// stopped it, if any.
pub struct PlaceProgress {
    pub next: int,
    pub reqs: Seq<Position>,
    pub err: Option<BlueprintError>,
}

pub struct BlueprintGenerator {
    args: BlueprintArgs,
    entity_data: EntityData,
    first_frame: Option<RgbaFrame>,
    frames_per_cb: u32,
    full_height: u32,
    full_width: u32,
    group_data_combs: Vec<Vec<Entity>>,
    layouts: Vec<CombinatorPositionData>,
    max_cols_per_grp: u32,
    n_buf_frames: usize,
    n_frames_per_chunk: usize,
    n_groups: u32,
    n_scaled_frames: u32,
    output_ents: Vec<Entity>,
    patch_states: Vec<GroupPatchState>,
    signals: Vec<Signal>,
    state: BlueprintState,
    ticks_per_frame: u32,
    total_frames: u32,
    use_delta_comp: bool,
}

impl BlueprintGenerator {
    /// Where the generator is.
    pub closed spec fn spec_state(&self) -> BlueprintState {
        self.state
    }

    /// The options it runs with.
    pub closed spec fn spec_args(&self) -> BlueprintArgs {
        self.args
    }

    /// Number of groups of lamps.
    pub closed spec fn spec_n_groups(&self) -> int {
        self.n_groups as int
    }

    /// Columns of lamps in a full group.
    pub closed spec fn spec_max_cols(&self) -> int {
        self.max_cols_per_grp as int
    }

    /// Game ticks per frame.
    pub closed spec fn spec_ticks_per_frame(&self) -> int {
        self.ticks_per_frame as int
    }

    /// Number of input frames the animation is made of.
    pub closed spec fn spec_total_frames(&self) -> int {
        self.total_frames as int
    }

    /// The tick the timer's counter resets at: every frame shown for its
    /// ticks.
    pub closed spec fn spec_timer_stop(&self) -> int {
        self.total_frames as int * self.ticks_per_frame as int
    }

    /// Frames per data combinator.
    pub closed spec fn spec_frames_per_cb(&self) -> int {
        self.frames_per_cb as int
    }

    /// Packed frames per compression window.
    pub closed spec fn spec_n_buf_frames(&self) -> int {
        self.n_buf_frames as int
    }

    /// The signals lamps are given.
    pub closed spec fn spec_signals(&self) -> Seq<Signal> {
        self.signals@
    }

    /// The size of the frames, in lamps.
    pub closed spec fn spec_dims(&self) -> (u32, u32) {
        (self.full_width, self.full_height)
    }

    /// The wires to write at the end.
    pub closed spec fn spec_wires(&self) -> Seq<Wire> {
        self.entity_data.wires@
    }

    /// Whether combinators are laid out beside the lamps.
    pub closed spec fn spec_with_combs(&self) -> bool {
        self.args.mode != Mode::LampGrid
    }

    /// Data combinators per group.
    pub closed spec fn spec_n_chunks(&self) -> int {
        spec_div_ceil(self.n_scaled_frames as int, self.frames_per_cb as int)
    }

    /// Columns of lamps in group `g`.
    pub closed spec fn spec_group_width(&self, g: int) -> int {
        group_width(g, self.max_cols_per_grp as int, self.full_width as int)
    }

    /// Where the lamps of group `g` start.
    pub closed spec fn spec_lamp_start(&self, g: int) -> Position {
        Position { x2: (2 * (g * self.max_cols_per_grp)) as i64, y2: 0 }
    }

    /// The lamps of group `g`, numbered from `base`.
    pub closed spec fn spec_lamp_run(&self, g: int, base: int) -> LampRun {
        lamp_run(
            (self.spec_group_width(g) * self.full_height) as nat,
            self.spec_group_width(g),
            self.spec_lamp_start(g),
            self.args.substation_quality,
            Position { x2: 2i64, y2: -2i64 },
            base,
            self.args,
        )
    }

    /// The grid the combinators of group `g` are laid on.
    pub closed spec fn spec_comb_grid(&self, g: int) -> CombGrid {
        plan_grid(
            Position { x2: (2 * (g * self.max_cols_per_grp)) as i64, y2: -4i64 },
            plan_layout(self.layouts@, self.args, self.max_cols_per_grp).1,
            self.max_cols_per_grp,
            Position { x2: 2i64, y2: -2i64 },
            spec_coverage(self.args.substation_quality),
        )
    }

    /// Laying out the groups `0..k` in turn: after the timer (numbers from
    /// 1, where combinators are laid out), each group takes a number per
    /// cell of its grid for its lamps, then its helpers and data
    /// combinators; the lamps and the combinators ask for the substation
    /// grid points near them. Numbers that would not fit, or a group
    /// without a lamp, stop it.
    #[verifier::opaque]
    pub closed spec fn spec_place(&self, k: int) -> PlaceProgress
        decreases k,
    {
        if k <= 0 {
            PlaceProgress {
                next: if !self.spec_with_combs() {
                    0
                } else if self.args.grayscale_bits > 0 {
                    7
                } else {
                    4
                },
                reqs: Seq::empty(),
                err: None,
            }
        } else {
            let p = self.spec_place(k - 1);
            let g = k - 1;
            let cov = spec_coverage(self.args.substation_quality);
            let cells = self.spec_group_width(g) * self.full_height;
            if p.err is Some {
                p
            } else if p.next + cells > u32::MAX {
                PlaceProgress { next: p.next, reqs: p.reqs, err: Some(BlueprintError::TooManyEntities) }
            } else {
                let run = self.spec_lamp_run(g, p.next);
                let reqs = after_requests(p.reqs, run.requested, Position { x2: 2i64, y2: -2i64 }, cov);
                let next = p.next + cells;
                if run.placed.len() == 0 {
                    PlaceProgress { next, reqs, err: Some(BlueprintError::MissingEntity) }
                } else if !self.spec_with_combs() {
                    PlaceProgress { next, reqs, err: None }
                } else if next + 5 + self.spec_n_chunks() > u32::MAX {
                    PlaceProgress { next, reqs, err: Some(BlueprintError::TooManyEntities) }
                } else {
                    let grid = self.spec_comb_grid(g);
                    let n = self.spec_n_chunks();
                    PlaceProgress {
                        next: next + n_helpers(uses_delta(self.args), self.args.grayscale_bits) + n,
                        reqs: after_requests(reqs, queries_upto(grid, placed(grid, n - 1) + 1), grid.start, grid.cov),
                        err: None,
                    }
                }
            }
        }
    }

    /// The error laying out the entities stops with, if any: that of a
    /// group, or substation numbers that would not fit after the groups.
    pub closed spec fn spec_place_error(&self) -> Option<BlueprintError> {
        let p = self.spec_place(self.n_groups as int);
        if p.err is Some {
            p.err
        } else if p.reqs.len() + p.next > u32::MAX {
            Some(BlueprintError::TooManyEntities)
        } else {
            None
        }
    }

    /// `fr` is what the lamps of group `g` take their colours from: with
    /// fixed colours, the group's columns of the first frame; else nothing.
    pub closed spec fn spec_group_frame(&self, fr: Option<RgbaFrame>, g: int) -> bool {
        if is_static_colors(self.args.mode) {
            &&& fr matches Some(c)
            &&& self.first_frame matches Some(f)
            &&& forall|x: int, y: int, ch: int|
                0 <= x < self.spec_group_width(g) && 0 <= y < self.full_height && 0 <= ch < 4
                    ==> fr.unwrap().spec_channel(x, y, ch) == f.spec_channel(
                    g * self.max_cols_per_grp + x,
                    y,
                    ch,
                )
        } else {
            fr is None
        }
    }

    /// `v` is the lamps of group `g`, in the order they are placed: one per
    /// cell of the group's grid that no substation takes, numbered by cell
    /// from the group's first number.
    pub closed spec fn spec_group_lamps(&self, v: Seq<Entity>, g: int) -> bool {
        let base = self.spec_place(g).next;
        let run = self.spec_lamp_run(g, base);
        let gx = self.spec_group_width(g);
        exists|fr: Option<RgbaFrame>|
            #[trigger] self.spec_group_frame(fr, g) && v.len() == run.placed.len() && forall|i: int|
                0 <= i < run.placed.len() ==> is_lamp(
                    #[trigger] v[i],
                    base + run.placed[i].0 * gx + run.placed[i].1,
                    lamp_pos(self.spec_lamp_start(g), run.placed[i].0, run.placed[i].1),
                    self.args,
                    self.signals@,
                    run.placed[i].0 * gx + run.placed[i].1,
                    fr,
                    run.placed[i].1,
                    run.placed[i].0,
                )
    }

    /// Once a group has stopped the layout, nothing after it changes that.
    proof fn lemma_place_err_sticky(&self, k: int, k2: int)
        requires
            0 <= k <= k2,
            self.spec_place(k).err is Some,
        ensures
            self.spec_place(k2) == self.spec_place(k),
        decreases k2 - k,
    {
        reveal(BlueprintGenerator::spec_place);
        if k2 > k {
            self.lemma_place_err_sticky(k, k2 - 1);
        }
    }

    /// Consistent settings and state.
    pub closed spec fn wf(&self) -> bool {
        &&& generator_ok(self.total_frames, self.full_width, self.full_height, self.args)
        &&& self.full_width == self.spec_dims().0
        &&& 1 <= self.max_cols_per_grp
        &&& self.max_cols_per_grp * self.full_height <= self.signals@.len()
        &&& self.signals@.len() <= u32::MAX
        &&& self.n_groups == spec_div_ceil(self.full_width as int, self.max_cols_per_grp as int)
        &&& self.patch_states@.len() == self.n_groups
        &&& self.frames_per_cb == spec_frames_per_cb(self.args.grayscale_bits)
        &&& 1 <= self.frames_per_cb <= 32
        &&& self.ticks_per_frame == spec_ticks_per_frame(self.args.target_fps)
        &&& self.n_scaled_frames >= 1
        &&& self.total_frames >= 1
        &&& self.n_buf_frames == spec_n_buf_frames(self.args)
        &&& self.n_frames_per_chunk == (if self.n_buf_frames > 1 { 1int } else { 0int })
        &&& self.use_delta_comp == (self.args.signal_compression == Some(SignalCompression::Delta))
        &&& layout_ready(self.layouts@, self.args, self.max_cols_per_grp)
        &&& is_static_colors(self.args.mode) ==> (self.first_frame matches Some(f) && f.wf()
            && f.width == self.full_width && f.height == self.full_height)
        &&& self.state == BlueprintState::Data ==> self.group_data_combs@.len() == (
        if self.args.mode == Mode::LampGrid {
            0
        } else {
            self.n_groups as int
        })
        &&& forall|g: int|
            0 <= g < self.n_groups ==> patch_ready(
                patch_state_view(#[trigger] self.patch_states@[g]),
                group_width(g, self.max_cols_per_grp as int, self.full_width as int)
                    * self.full_height,
                self.spec_config(),
            )
        &&& self.n_buf_frames >= 1
        &&& self.ticks_per_frame * self.frames_per_cb <= u32::MAX
    }

    /// Sets up the generator for `total_frames` frames of `full_width` by
    /// `full_height` pixels, with signals made from `signal_list`, helper
    /// layouts from `layouts`, and (for fixed colours) the first frame.
    /// No frames, or too few signals for one column of lamps, is an error.
    pub fn new(
        total_frames: u32,
        full_width: u32,
        full_height: u32,
        args: BlueprintArgs,
        signal_list: &Vec<SignalEntry>,
        layouts: Vec<CombinatorPositionData>,
        first_frame: Option<RgbaFrame>,
    ) -> (r: Result<Self, BlueprintError>)
        requires
            generator_ok(total_frames, full_width, full_height, args),
            entries_fit(signal_list@),
            signal_list@.len() * 6 <= u32::MAX,
        ensures
            total_frames == 0 ==> r == Err::<Self, BlueprintError>(BlueprintError::NoSampledFrames),
            total_frames > 0 ==> ({
                let n_signals = crate::blueprint::signals::stable_sorted(
                    crate::blueprint::signals::all_signals(
                        signal_list@,
                        crate::blueprint::signals::spec_qualities(args.use_dlc),
                    ),
                    args.signal_sorting,
                ).len() as int;
                let max_cols = spec_max_cols(n_signals, full_width, full_height, args);
                if max_cols < 1 {
                    r == Err::<Self, BlueprintError>(BlueprintError::NotEnoughSignals)
                } else {
                    r matches Ok(g) && {
                        &&& g.spec_state() == BlueprintState::Start
                        &&& g.spec_args() == args
                        &&& g.spec_max_cols() == max_cols
                        &&& g.spec_n_groups() == spec_div_ceil(full_width as int, max_cols)
                        &&& g.spec_ticks_per_frame() == spec_ticks_per_frame(args.target_fps)
                        &&& g.spec_frames_per_cb() == spec_frames_per_cb(args.grayscale_bits)
                        &&& g.spec_n_buf_frames() == spec_n_buf_frames(args)
                        &&& g.spec_dims() == (full_width, full_height)
                        &&& (layout_ready(layouts@, args, max_cols as u32) && (is_static_colors(
                            args.mode,
                        ) ==> (first_frame matches Some(f) && f.wf() && f.width == full_width
                            && f.height == full_height)) ==> g.wf())
                    }
                }
            }),
    {
        if total_frames == 0 {
            return Err(BlueprintError::NoSampledFrames);
        }
        let signals = get_signals_with_quality(&args, signal_list);
        proof {
            crate::blueprint::signals::lemma_signal_count(signal_list@, args.use_dlc, args.signal_sorting);
        }
        let gray_bits = args.grayscale_bits;
        let time_comp_win: u32 = match args.signal_compression {
            Some(SignalCompression::Temporal { window }) => window,
            _ => 0,
        };
        let n_scaled_frames = total_frames * if time_comp_win > 0 {
            2
        } else {
            1
        };
        let frames_per_cb: u32 = if gray_bits > 0 {
            32 / gray_bits
        } else {
            1
        };
        proof {
            if gray_bits > 0 {
                assert(1 <= 32u32 / gray_bits <= 32) by (nonlinear_arith)
                    requires
                        1 <= gray_bits <= 32,
                ;
            }
        }
        let n_buf: u32 = if time_comp_win > 0 {
            let num = time_comp_win * args.target_fps;
            let den = 1000 * frames_per_cb;
            proof {
                assert(num / den < u32::MAX) by (nonlinear_arith)
                    requires
                        den >= 2,
                        num <= u32::MAX,
                ;
            }
            num / den + if num % den != 0 {
                1
            } else {
                0
            }
        } else {
            1
        };
        proof {
            if time_comp_win > 0 {
                let num = time_comp_win * args.target_fps;
                let den = 1000 * frames_per_cb;
                assert(num / den + (if num % den != 0 {
                    1int
                } else {
                    0int
                }) == (num + den - 1) / den) by (nonlinear_arith)
                    requires
                        den >= 1,
                        num >= 0,
                ;
            }
        }
        let n_buf_frames = n_buf as usize;
        let full_w = full_width;
        let by_signals: u32 = (signals.len() as u32) / full_height;
        let limit: u32 = match args.max_group_size {
            Some(m) => m,
            None => full_width,
        };
        let max_cols: u32 = if by_signals < limit {
            by_signals
        } else {
            limit
        };
        if max_cols < 1 {
            return Err(BlueprintError::NotEnoughSignals);
        }
        let n_groups: u32 = full_w / max_cols + if full_w % max_cols != 0 {
            1
        } else {
            0
        };
        proof {
            assert(full_w / max_cols + (if full_w % max_cols != 0 {
                1int
            } else {
                0int
            }) == (full_w + max_cols - 1) / (max_cols as int)) by (nonlinear_arith)
                requires
                    max_cols >= 1,
                    full_w >= 0,
            ;
            assert(max_cols * full_height <= signals@.len()) by (nonlinear_arith)
                requires
                    max_cols <= by_signals,
                    by_signals == (signals@.len() as u32) / full_height,
                    signals@.len() <= u32::MAX,
                    full_height >= 1,
            ;
        }
        let ticks_per_frame: u32 = if args.target_fps == 0 {
            u32::MAX
        } else {
            60 / args.target_fps
        };
        let use_delta_comp = match args.signal_compression {
            Some(SignalCompression::Delta) => true,
            _ => false,
        };
        proof {
            if time_comp_win > 0 {
                let num = time_comp_win * args.target_fps;
                let den = 1000 * frames_per_cb;
                assert(num >= 1) by (nonlinear_arith)
                    requires
                        time_comp_win >= 1,
                        args.target_fps >= 1,
                        num == time_comp_win * args.target_fps,
                ;
                assert((num + den - 1) / den >= 1) by (nonlinear_arith)
                    requires
                        num >= 1,
                        den >= 1,
                ;
            }
            if gray_bits > 0 {
                assert((32u32 / gray_bits) * gray_bits <= 32) by (nonlinear_arith)
                    requires
                        gray_bits >= 1,
                ;
            }
        }
        let mut patch_states: Vec<GroupPatchState> = Vec::new();
        let mut g: u32 = 0;
        while g < n_groups
            invariant
                0 <= g <= n_groups,
                patch_states@.len() == g,
                forall|k: int|
                    0 <= k < g ==> (#[trigger] patch_states@[k]).chunk_i == 0
                        && patch_states@[k].frame_buf@.len() == 0 && patch_states@[k].sig_buf@.len()
                        == 0,
            decreases n_groups - g,
        {
            patch_states.push(
                GroupPatchState { chunk_i: 0, frame_buf: Vec::new(), sig_buf: Vec::new() },
            );
            g += 1;
        }
        let ghost cfg = PatchConfig {
            gray_bits: args.grayscale_bits,
            frames_per_cb,
            use_delta_comp,
            n_buf_frames,
            n_frames_per_chunk: if n_buf_frames > 1 {
                1
            } else {
                0
            },
            ticks_per_grp: (ticks_per_frame * frames_per_cb) as u32,
        };
        proof {
            assert forall|g: int| 0 <= g < n_groups implies patch_ready(
                patch_state_view(#[trigger] patch_states@[g]),
                group_width(g, max_cols as int, full_width as int) * full_height,
                cfg,
            ) by {
                assert(rasters_view(patch_states@[g].frame_buf@) =~= Seq::<Seq<u8>>::empty());
                assert(sigs_view(patch_states@[g].sig_buf@) =~= Seq::<Seq<i32>>::empty());
            }
        }
        Ok(
            Self {
                args,
                entity_data: EntityData { ents: Vec::new(), wires: Vec::new(), next_ent_n: 0 },
                first_frame,
                frames_per_cb,
                full_height,
                full_width,
                group_data_combs: Vec::new(),
                layouts,
                max_cols_per_grp: max_cols,
                n_buf_frames,
                n_frames_per_chunk: if n_buf_frames > 1 {
                    1
                } else {
                    0
                },
                n_groups,
                n_scaled_frames,
                output_ents: Vec::new(),
                patch_states,
                signals,
                state: BlueprintState::Start,
                ticks_per_frame,
                total_frames,
                use_delta_comp,
            },
        )
    }

    /// Whether the whole blueprint has been written.
    pub fn done(&self) -> (r: bool)
        ensures
            r == (self.spec_state() == BlueprintState::Finished),
    {
        self.state == BlueprintState::Finished
    }

    /// Whether the next chunk is made from a frame (see `populate_frame`).
    pub fn needs_frames(&self) -> (r: bool)
        ensures
            r == (self.spec_state() == BlueprintState::Data),
    {
        self.state == BlueprintState::Data
    }

    /// The header of the blueprint: its icon, label, item and version.
    fn header(&self) -> (h: BlueprintInner)
        ensures
            h.item@ == BLUEPRINT@,
            h.version == BLUEPRINT_VERSION,
            h.label == self.spec_args().name,
            h.entities@.len() == 0,
            h.wires matches Some(w) && w@.len() == 0,
            h.icons matches Some(icons) && icons@.len() == 1 && icons@[0].index == 1
                && is_some_virtual(Some(icons@[0].signal), DEC_CB@),
    {
        let mut icons: Vec<Icon> = Vec::new();
        icons.push(Icon { signal: Signal::new_virtual(DEC_CB.to_owned()), index: 1 });
        BlueprintInner {
            icons: Some(icons),
            item: BLUEPRINT.to_owned(),
            label: crate::blueprint::models::clone_opt_string(&self.args.name),
            version: BLUEPRINT_VERSION,
            entities: Vec::new(),
            wires: Some(Vec::new()),
        }
    }

    /// Places every entity: the timer, the lamps and combinators of each
    /// group, and the substations. The lamps of each group are returned to
    /// be written at once, separated by commas; everything else is kept for
    /// later, sorted by entity number.
    #[verifier::rlimit(100)]
    #[verifier::spinoff_prover]
    fn place_entities(&mut self) -> (r: Result<Vec<Piece>, BlueprintError>)
        requires
            old(self).wf(),
            old(self).spec_state() == BlueprintState::Entities,
        ensures
            r is Ok <==> old(self).spec_place_error() is None,
            r matches Err(e) ==> old(self).spec_place_error() == Some(e),
            r is Ok ==> final(self).wf() && final(self).spec_state() == BlueprintState::Data
                && lamp_pieces(r->Ok_0@, final(self).spec_n_groups()),
            r is Ok ==> forall|g: int|
                0 <= g < old(self).spec_n_groups() ==> (#[trigger] r->Ok_0@[2 * g] matches Piece::Entities(v)
                    && old(self).spec_group_lamps(v@, g)),
            r is Ok ==> forall|i: int, j: int|
                0 <= i <= j < final(self).spec_kept().len() ==> (#[trigger] final(self).spec_kept()[i]).entity_number
                    <= (#[trigger] final(self).spec_kept()[j]).entity_number,
            final(self).spec_args() == old(self).spec_args(),
            final(self).spec_dims() == old(self).spec_dims(),
            final(self).spec_n_groups() == old(self).spec_n_groups(),
            r is Ok && old(self).spec_args().mode != Mode::LampGrid ==> exists|t: Seq<Entity>|
                #[trigger] timer_with_stop(
                    t,
                    (old(self).spec_total_frames() * old(self).spec_ticks_per_frame()) as u32,
                    old(self).spec_args().grayscale_bits,
                    old(self).spec_ticks_per_frame() as u32,
                    old(self).spec_frames_per_cb() as u32,
                ) && forall|i: int| 0 <= i < t.len() ==> final(self).spec_kept().contains(#[trigger] t[i]),
    {
        let stop = self.total_frames * self.ticks_per_frame;
        let should_generate_cbs = self.args.mode != Mode::LampGrid;
        let mut pieces: Vec<Piece> = Vec::new();
        let mut next_ent_n: u32 = 0;
        let mut timer_ents: Vec<Entity> = Vec::new();
        if should_generate_cbs {
            let (ents, mut wires) = generate_timer(
                stop,
                self.ticks_per_frame,
                self.frames_per_cb,
                &self.args,
            );
            let mut max_n: u32 = 0;
            let mut i: usize = 0;
            proof {
                assert(forall|k: int| 0 <= k < ents@.len() ==> (#[trigger] ents@[k]).entity_number == k + 1);
            }
            while i < ents.len()
                invariant
                    0 <= i <= ents@.len(),
                    ents@.len() == (if self.args.grayscale_bits > 0 { 6int } else { 3int }),
                    forall|k: int| 0 <= k < ents@.len() ==> (#[trigger] ents@[k]).entity_number == k + 1,
                    max_n == i,
                decreases ents@.len() - i,
            {
                if ents[i].entity_number > max_n {
                    max_n = ents[i].entity_number;
                }
                i += 1;
            }
            next_ent_n = max_n + 1;
            // The timer's entities are kept with the rest, once the groups
            // are laid out.
            timer_ents = ents;
            self.entity_data.wires.append(&mut wires);
        }
        let ghost timer_v = timer_ents@;
        proof {
            assert(should_generate_cbs ==> timer_with_stop(
                timer_v,
                stop,
                self.args.grayscale_bits,
                self.ticks_per_frame,
                self.frames_per_cb,
            ));
        }
        let mut occupied = SubstationOccupied::new(
            Position { x2: 2i64, y2: -2i64 },
            self.args.substation_quality,
        );
        let mut prev_top_right: Option<u32> = None;
        let mut data_groups: Vec<Vec<Entity>> = Vec::new();
        proof {
            reveal(BlueprintGenerator::spec_place);
        }
        let mut group_i: u32 = 0;
        while group_i < self.n_groups
            invariant
                self.wf(),
                self.state == BlueprintState::Entities,
                self.args == old(self).args,
                self.full_width == old(self).full_width,
                self.full_height == old(self).full_height,
                0 <= group_i <= self.n_groups,
                occupied.wf(),
                should_generate_cbs == (self.args.mode != Mode::LampGrid),
                should_generate_cbs ==> next_ent_n >= 1,
                should_generate_cbs ==> data_groups@.len() == group_i,
                !should_generate_cbs ==> data_groups@.len() == 0,
                lamp_pieces(pieces@, group_i as int),
                self.n_groups == old(self).n_groups,
                self.ticks_per_frame == old(self).ticks_per_frame,
                self.total_frames == old(self).total_frames,
                stop == old(self).total_frames * old(self).ticks_per_frame,
                timer_ents@ == timer_v,
                should_generate_cbs ==> timer_with_stop(
                    timer_v,
                    stop,
                    self.args.grayscale_bits,
                    self.ticks_per_frame,
                    self.frames_per_cb,
                ),
                self.max_cols_per_grp == old(self).max_cols_per_grp,
                self.n_scaled_frames == old(self).n_scaled_frames,
                self.frames_per_cb == old(self).frames_per_cb,
                self.layouts@ == old(self).layouts@,
                self.first_frame == old(self).first_frame,
                self.signals@ == old(self).signals@,
                old(self).spec_place(group_i as int).err is None,
                next_ent_n == old(self).spec_place(group_i as int).next,
                occupied.spec_requests() == old(self).spec_place(group_i as int).reqs,
                occupied.spec_start() == (Position { x2: 2i64, y2: -2i64 }),
                occupied.spec_quality() == self.args.substation_quality,
                forall|g: int|
                    0 <= g < group_i ==> (#[trigger] pieces@[2 * g] matches Piece::Entities(v)
                        && old(self).spec_group_lamps(v@, g)),
            decreases self.n_groups - group_i,
        {
            proof {
                assert(group_i * self.max_cols_per_grp < self.full_width) by (nonlinear_arith)
                    requires
                        group_i < self.n_groups,
                        self.n_groups == (self.full_width + self.max_cols_per_grp - 1) / (
                        self.max_cols_per_grp as int),
                        self.max_cols_per_grp >= 1,
                ;
            }
            let grp_left = group_i * self.max_cols_per_grp;
            let grp_width = if self.max_cols_per_grp < self.full_width - grp_left {
                self.max_cols_per_grp
            } else {
                self.full_width - grp_left
            };
            proof {
                assert(grp_width * self.full_height <= self.signals@.len()) by (nonlinear_arith)
                    requires
                        grp_width <= self.max_cols_per_grp,
                        self.max_cols_per_grp * self.full_height <= self.signals@.len(),
                ;
                assert(grp_width * self.full_height <= 0x8000_0000u64 * 0x8000_0000u64) by (
                nonlinear_arith)
                    requires
                        grp_width <= 0x8000_0000,
                        self.full_height <= 0x8000_0000,
                ;
            }
            let cells: u64 = (grp_width as u64) * (self.full_height as u64);
            proof {
                assert(grp_width == old(self).spec_group_width(group_i as int));
            }
            if (next_ent_n as u64) + cells > u32::MAX as u64 {
                proof {
                    assert(old(self).spec_place(group_i + 1).err == Some(BlueprintError::TooManyEntities)) by {
                        reveal(BlueprintGenerator::spec_place);
                    }
                    old(self).lemma_place_err_sticky(group_i + 1, old(self).n_groups as int);
                }
                return Err(BlueprintError::TooManyEntities);
            }
            let frame: Option<RgbaFrame> = if is_static(&self.args.mode) {
                match &self.first_frame {
                    Some(f) => Some(crop_rgba(f, grp_left, grp_width)),
                    None => None,
                }
            } else {
                None
            };
            proof {
                crate::blueprint::lamp::lemma_lamps_supplied(
                    self.signals@,
                    grp_width as int,
                    self.full_height as int,
                    Position { x2: (2 * grp_left) as i64, y2: 0 },
                    occupied.spec_quality(),
                    occupied.spec_start(),
                    self.args,
                    frame,
                );
            }
            let (grp_lamps, mut grp_lamp_wires, new_next, corners) = generate_lamps(
                self.signals.as_slice(),
                (grp_width, self.full_height),
                frame,
                &mut occupied,
                next_ent_n,
                Position { x2: 2 * (grp_left as i64), y2: 0 },
                &self.args,
            );
            let ghost base_g = next_ent_n as int;
            let ghost run_g = old(self).spec_lamp_run(group_i as int, base_g);
            proof {
                assert(run_g == lamp_run(
                    (grp_width * self.full_height) as nat,
                    grp_width as int,
                    Position { x2: (2 * grp_left) as i64, y2: 0i64 },
                    self.args.substation_quality,
                    Position { x2: 2i64, y2: -2i64 },
                    base_g,
                    self.args,
                ));
            }
            next_ent_n = new_next;
            if grp_lamps.len() == 0 {
                proof {
                    assert(old(self).spec_place(group_i + 1).err == Some(BlueprintError::MissingEntity)) by {
                        reveal(BlueprintGenerator::spec_place);
                    }
                    old(self).lemma_place_err_sticky(group_i + 1, old(self).n_groups as int);
                }
                return Err(BlueprintError::MissingEntity);
            }
            proof {
                assert(old(self).spec_group_frame(frame, group_i as int));
                assert(old(self).spec_group_lamps(grp_lamps@, group_i as int));
            }
            let first_lamp = grp_lamps[0].entity_number;
            if should_generate_cbs {
                proof {
                    assert(self.n_scaled_frames / self.frames_per_cb + (if self.n_scaled_frames
                        % self.frames_per_cb != 0 {
                        1int
                    } else {
                        0int
                    }) <= u32::MAX) by (nonlinear_arith)
                        requires
                            self.frames_per_cb >= 1,
                            self.n_scaled_frames <= u32::MAX,
                    ;
                }
                let n_chunks: u32 = self.n_scaled_frames / self.frames_per_cb + if self.n_scaled_frames
                    % self.frames_per_cb != 0 {
                    1
                } else {
                    0
                };
                proof {
                    assert(n_chunks >= 1) by (nonlinear_arith)
                        requires
                            n_chunks == self.n_scaled_frames / self.frames_per_cb + (if self.n_scaled_frames
                                % self.frames_per_cb != 0 {
                                1int
                            } else {
                                0int
                            }),
                            self.n_scaled_frames >= 1,
                            self.frames_per_cb >= 1,
                    ;
                }
                proof {
                    let nsf = self.n_scaled_frames;
                    let fpcb = self.frames_per_cb;
                    assert(n_chunks == (nsf + fpcb - 1) / (fpcb as int)) by (nonlinear_arith)
                        requires
                            n_chunks == nsf / fpcb + (if nsf % fpcb != 0 { 1int } else { 0int }),
                            fpcb >= 1,
                    ;
                    assert(n_chunks == old(self).spec_n_chunks());
                }
                if (next_ent_n as u64) + 5 + (n_chunks as u64) > u32::MAX as u64 {
                    proof {
                        assert(old(self).spec_place(group_i + 1).err == Some(BlueprintError::TooManyEntities)) by {
                        reveal(BlueprintGenerator::spec_place);
                    }
                        old(self).lemma_place_err_sticky(group_i + 1, old(self).n_groups as int);
                    }
                    return Err(BlueprintError::TooManyEntities);
                }
                let (mut other_ents, data_combs, mut wires, (in_ent_n, out_ent_n, new_base)) =
                    generate_combinators(
                    n_chunks,
                    &mut occupied,
                    next_ent_n,
                    Position { x2: 2 * (grp_left as i64), y2: -4 },
                    self.max_cols_per_grp,
                    &self.args,
                    &self.layouts,
                );
                next_ent_n = new_base;
                if group_i == 0 {
                    // The timer's output drives the first group.
                    self.entity_data.wires.push([3, WIRE_OUT_R, in_ent_n, WIRE_R]);
                }
                data_groups.push(data_combs);
                self.entity_data.ents.append(&mut other_ents);
                self.entity_data.wires.append(&mut wires);
                self.entity_data.wires.push([first_lamp, WIRE_R, in_ent_n, WIRE_R]);
                self.entity_data.wires.push([first_lamp, WIRE_G, out_ent_n, WIRE_OUT_G]);
            }
            // The first lamp of a group joins the top right lamp of the one before.
            match prev_top_right {
                Some(prev) => {
                    grp_lamp_wires.push([first_lamp, WIRE_R, prev, WIRE_R]);
                },
                None => {},
            }
            prev_top_right = corners.1;
            let ghost before_pieces = pieces@;
            let ghost lamps_v = grp_lamps@;
            if group_i > 0 {
                pieces.push(Piece::Text(",".to_owned()));
            }
            pieces.push(Piece::Entities(grp_lamps));
            self.entity_data.wires.append(&mut grp_lamp_wires);
            proof {
                assert(lamp_pieces(pieces@, group_i + 1));
                assert(pieces@[2 * group_i] matches Piece::Entities(v) && v@ == lamps_v);
                assert forall|g: int| 0 <= g < group_i + 1 implies (#[trigger] pieces@[2 * g] matches Piece::Entities(v)
                    && old(self).spec_group_lamps(v@, g)) by {
                    if g < group_i {
                        assert(pieces@[2 * g] == before_pieces[2 * g]);
                    }
                }
                assert(old(self).spec_place(group_i + 1).err is None && next_ent_n == old(self).spec_place(
                    group_i + 1,
                ).next && occupied.spec_requests() == old(self).spec_place(group_i + 1).reqs) by {
                    reveal(BlueprintGenerator::spec_place);
                }
            }
            group_i += 1;
        }
        let n_req = occupied.n_requests();
        if n_req > ((u32::MAX - next_ent_n) as usize) {
            return Err(BlueprintError::TooManyEntities);
        }
        proof {
            assert(old(self).spec_place_error() is None);
        }
        let (mut subs, mut sub_wires, _) = generate_substations(&mut occupied, next_ent_n);
        self.entity_data.ents.append(&mut timer_ents);
        let ghost with_timer = self.entity_data.ents@;
        self.entity_data.ents.append(&mut subs);
        self.entity_data.wires.append(&mut sub_wires);
        let mut ents: Vec<Entity> = Vec::new();
        std::mem::swap(&mut ents, &mut self.entity_data.ents);
        let ghost unsorted = ents@;
        self.entity_data.ents = sort_by_entity_number(ents);
        proof {
            broadcast use vstd::seq_lib::to_multiset_contains;

            assert forall|i: int| 0 <= i < timer_v.len() implies self.entity_data.ents@.contains(
                #[trigger] timer_v[i],
            ) by {
                assert(with_timer[with_timer.len() - timer_v.len() + i] == timer_v[i]);
                assert(unsorted[with_timer.len() - timer_v.len() + i] == timer_v[i]);
                assert(unsorted.contains(timer_v[i]));
                assert(unsorted.to_multiset().contains(timer_v[i]));
            }
            if should_generate_cbs {
                assert(timer_with_stop(
                    timer_v,
                    (old(self).spec_total_frames() * old(self).spec_ticks_per_frame()) as u32,
                    old(self).spec_args().grayscale_bits,
                    old(self).spec_ticks_per_frame() as u32,
                    old(self).spec_frames_per_cb() as u32,
                ));
            }
        }
        self.entity_data.next_ent_n = next_ent_n;
        self.group_data_combs = data_groups;
        self.state = BlueprintState::Data;
        Ok(pieces)
    }
}

/// The windows group `g` writes when it is handed its image of `frame`.
pub open spec fn group_windows(
    states: Seq<PatchSpecState>,
    frame: Raster,
    max_cols: int,
    is_last: bool,
    cfg: PatchConfig,
    signals: Seq<Signal>,
    g: int,
) -> Seq<WindowSpec> {
    patch_spec(
        states[g],
        group_image(frame, cfg.gray_bits, g, max_cols),
        group_width(g, max_cols, frame.width as int) * frame.height,
        is_last,
        cfg,
        signals,
    ).windows
}

/// The error, if any, with which group `g` refuses its image of `frame`:
/// `MissingEntity` where its next chunk would need a data combinator beyond
/// the `n_combs` it has or ticks past the largest count, else the error of
/// packing the image.
pub open spec fn group_patch_error(
    states: Seq<PatchSpecState>,
    frame: Raster,
    max_cols: int,
    is_last: bool,
    cfg: PatchConfig,
    signals: Seq<Signal>,
    n_combs: int,
    g: int,
) -> Option<BlueprintError> {
    let st = states[g];
    if !((st.chunk_i + 1) * cfg.n_buf_frames <= u32::MAX && chunk_fits(st, cfg, n_combs)) {
        Some(BlueprintError::MissingEntity)
    } else {
        patch_spec(
            st,
            group_image(frame, cfg.gray_bits, g, max_cols),
            group_width(g, max_cols, frame.width as int) * frame.height,
            is_last,
            cfg,
            signals,
        ).err
    }
}

/// `new` is `old` followed, for groups `0..g` in turn, by one data
/// combinator per window the group writes for `frame`, made from that
/// group's templates.
pub open spec fn frame_written(
    old: Seq<Entity>,
    new: Seq<Entity>,
    states: Seq<PatchSpecState>,
    frame: Raster,
    max_cols: int,
    is_last: bool,
    cfg: PatchConfig,
    signals: Seq<Signal>,
    combs: Seq<Seq<Entity>>,
    g: int,
) -> bool
    decreases g,
{
    if g <= 0 {
        new == old
    } else {
        let ws = group_windows(states, frame, max_cols, is_last, cfg, signals, g - 1);
        let mid = new.take(new.len() - ws.len());
        &&& new.len() >= ws.len()
        &&& frame_written(old, mid, states, frame, max_cols, is_last, cfg, signals, combs, g - 1)
        &&& windows_written(mid, new, ws, combs[g - 1])
    }
}

/// Windows written after nothing are written after anything.
pub(crate) proof fn lemma_windows_written_shift(
    a: Seq<Entity>,
    w: Seq<Entity>,
    ws: Seq<WindowSpec>,
    combs: Seq<Entity>,
)
    requires
        windows_written(Seq::empty(), w, ws, combs),
    ensures
        windows_written(a, a + w, ws, combs),
{
    assert((a + w).take(a.len() as int) =~= a);
    assert forall|k: int| 0 <= k < ws.len() implies is_window_comb(
        #[trigger] (a + w)[a.len() + k],
        combs[ws[k].comb],
        ws[k].start,
        ws[k].end,
        ws[k].outs,
    ) by {
        assert((a + w)[a.len() + k] == w[0 + k]);
    }
}

/// One more group's windows extend what a frame has written.
pub(crate) proof fn lemma_frame_written_step(
    old: Seq<Entity>,
    mid: Seq<Entity>,
    new: Seq<Entity>,
    states: Seq<PatchSpecState>,
    frame: Raster,
    max_cols: int,
    is_last: bool,
    cfg: PatchConfig,
    signals: Seq<Signal>,
    combs: Seq<Seq<Entity>>,
    g: int,
)
    requires
        g >= 0,
        frame_written(old, mid, states, frame, max_cols, is_last, cfg, signals, combs, g),
        windows_written(
            mid,
            new,
            group_windows(states, frame, max_cols, is_last, cfg, signals, g),
            combs[g],
        ),
    ensures
        frame_written(old, new, states, frame, max_cols, is_last, cfg, signals, combs, g + 1),
{
    let ws = group_windows(states, frame, max_cols, is_last, cfg, signals, g);
    assert(new.take(new.len() - ws.len()) =~= mid);
}

impl BlueprintGenerator {
    /// The progress of each group of lamps.
    pub closed spec fn spec_patch_states(&self) -> Seq<PatchSpecState> {
        self.patch_states@.map_values(|st: GroupPatchState| patch_state_view(st))
    }

    /// The data combinators completed but not yet written out.
    pub closed spec fn spec_pending(&self) -> Seq<Entity> {
        self.output_ents@
    }

    /// The data combinators of each group, without data.
    pub closed spec fn spec_data_combs(&self) -> Seq<Seq<Entity>> {
        self.group_data_combs@.map_values(|v: Vec<Entity>| v@)
    }

    /// The entities placed earlier, written after the data.
    pub closed spec fn spec_kept(&self) -> Seq<Entity> {
        self.entity_data.ents@
    }

    /// The settings that decide how frames are packed.
    pub closed spec fn spec_config(&self) -> PatchConfig {
        PatchConfig {
            gray_bits: self.args.grayscale_bits,
            frames_per_cb: self.frames_per_cb,
            use_delta_comp: self.use_delta_comp,
            n_buf_frames: self.n_buf_frames,
            n_frames_per_chunk: self.n_frames_per_chunk,
            ticks_per_grp: (self.ticks_per_frame * self.frames_per_cb) as u32,
        }
    }

    /// Writes the next chunk of the blueprint (outside the data, which
    /// `populate_frame` writes): the header, then the lamps, then the wires,
    /// each followed by the text that opens the next part; nothing once
    /// finished.
    pub fn next_chunk(&mut self) -> (r: Result<Option<Vec<Piece>>, BlueprintError>)
        requires
            old(self).wf(),
            old(self).spec_state() != BlueprintState::Data,
        ensures
            final(self).spec_args() == old(self).spec_args(),
            old(self).spec_state() == BlueprintState::Finished ==> (r matches Ok(None)
                && final(self).spec_state() == BlueprintState::Finished),
            old(self).spec_state() == BlueprintState::Start ==> (r matches Ok(Some(ps)) && {
                &&& ps@.len() == 3
                &&& is_text(ps@[0], "{\"blueprint\":{"@)
                &&& ps@[1] matches Piece::Header(h) && h.label == old(self).spec_args().name
                    && h.item@ == BLUEPRINT@ && h.version == BLUEPRINT_VERSION
                &&& is_text(ps@[2], ",\"entities\":["@)
                &&& final(self).spec_state() == BlueprintState::Entities
                &&& final(self).wf()
            }),
            old(self).spec_state() == BlueprintState::Entities ==> match r {
                Ok(Some(ps)) => final(self).spec_state() == BlueprintState::Data && final(self).wf()
                    && lamp_pieces(ps@, final(self).spec_n_groups()) && old(self).spec_place_error() is None
                    && (forall|g: int|
                    0 <= g < old(self).spec_n_groups() ==> (#[trigger] ps@[2 * g] matches Piece::Entities(v)
                        && old(self).spec_group_lamps(v@, g))) && (forall|i: int, j: int|
                    0 <= i <= j < final(self).spec_kept().len() ==> (#[trigger] final(self).spec_kept()[i]).entity_number
                        <= (#[trigger] final(self).spec_kept()[j]).entity_number) && (old(self).spec_args().mode
                    != Mode::LampGrid ==> exists|t: Seq<Entity>|
                    #[trigger] timer_with_stop(
                        t,
                        (old(self).spec_total_frames() * old(self).spec_ticks_per_frame()) as u32,
                        old(self).spec_args().grayscale_bits,
                        old(self).spec_ticks_per_frame() as u32,
                        old(self).spec_frames_per_cb() as u32,
                    ) && forall|i: int| 0 <= i < t.len() ==> final(self).spec_kept().contains(#[trigger] t[i])),
                Ok(None) => false,
                Err(e) => old(self).spec_place_error() == Some(e),
            },
            old(self).spec_state() == BlueprintState::Wires ==> (r matches Ok(Some(ps)) && {
                &&& final(self).spec_state() == BlueprintState::Finished
                &&& ps@.len() >= 1
                &&& wire_pieces(
                    ps@.drop_last(),
                    if old(self).spec_args().prefer_green_wires {
                        old(self).spec_wires()
                    } else {
                        old(self).spec_wires().map_values(|w: Wire| spec_inverted_wire(w))
                    },
                )
                &&& is_text(ps@.last(), "]}}"@)
            }),
    {
        match self.state {
            BlueprintState::Start => {
                let mut ps: Vec<Piece> = Vec::new();
                ps.push(Piece::Text("{\"blueprint\":{".to_owned()));
                ps.push(Piece::Header(self.header()));
                self.state = BlueprintState::Entities;
                ps.push(Piece::Text(",\"entities\":[".to_owned()));
                Ok(Some(ps))
            },
            BlueprintState::Entities => {
                let ps = self.place_entities()?;
                Ok(Some(ps))
            },
            BlueprintState::Wires => {
                let mut ps = self.make_wires();
                ps.push(Piece::Text("]}}".to_owned()));
                proof {
                    assert(ps@.drop_last() =~= ps@.take(ps@.len() - 1));
                }
                Ok(Some(ps))
            },
            _ => Ok(None),
        }
    }

    /// Writes the wires, swapped to green unless red is preferred, a thousand
    /// at a time.
    fn make_wires(&mut self) -> (ps: Vec<Piece>)
        requires
            old(self).wf(),
            old(self).spec_state() == BlueprintState::Wires,
        ensures
            final(self).spec_state() == BlueprintState::Finished,
            final(self).spec_args() == old(self).spec_args(),
            wire_pieces(
                ps@,
                if old(self).spec_args().prefer_green_wires {
                    old(self).spec_wires()
                } else {
                    old(self).spec_wires().map_values(|w: Wire| spec_inverted_wire(w))
                },
            ),
    {
        if !self.args.prefer_green_wires {
            invert_wires(&mut self.entity_data.ents, &mut self.entity_data.wires);
        }
        let mut wires: Vec<Wire> = Vec::new();
        std::mem::swap(&mut wires, &mut self.entity_data.wires);
        let ps = chunk_wires(wires);
        self.state = BlueprintState::Finished;
        ps
    }
}

impl BlueprintGenerator {
    /// Hands one frame (one byte per pixel for grayscale, three for colour,
    /// row by row) to every group of lamps, in order, gathering the data
    /// combinators that become complete. The gathered combinators are
    /// written out (after a comma) once there are a thousand of them or the
    /// frame is the last one; after the last frame the remaining entities
    /// follow, a thousand at a time, and the text that opens the wires.
    /// Returns the pieces and whether a chunk ended.
    ///
    /// A group whose next chunk would need a data combinator that was never
    /// placed, or ticks past the largest count, is refused with
    /// `MissingEntity`.
    pub fn populate_frame(&mut self, frame: &Raster, is_last_frame: bool) -> (r: Result<
        (Vec<Piece>, bool),
        BlueprintError,
    >)
        requires
            old(self).wf(),
            old(self).spec_state() == BlueprintState::Data,
            old(self).spec_args().mode != Mode::LampGrid,
            frame.wf(frame_channels(old(self).spec_args().grayscale_bits)),
            (frame.width, frame.height) == old(self).spec_dims(),
        ensures
            final(self).spec_args() == old(self).spec_args(),
            final(self).spec_dims() == old(self).spec_dims(),
            r is Ok <==> forall|g: int|
                0 <= g < old(self).spec_n_groups() ==> (#[trigger] group_patch_error(
                    old(self).spec_patch_states(),
                    *frame,
                    old(self).spec_max_cols(),
                    is_last_frame,
                    old(self).spec_config(),
                    old(self).spec_signals(),
                    old(self).spec_data_combs()[g].len() as int,
                    g,
                )) is None,
            r matches Err(e) ==> exists|g: int|
                0 <= g < old(self).spec_n_groups() && #[trigger] group_patch_error(
                    old(self).spec_patch_states(),
                    *frame,
                    old(self).spec_max_cols(),
                    is_last_frame,
                    old(self).spec_config(),
                    old(self).spec_signals(),
                    old(self).spec_data_combs()[g].len() as int,
                    g,
                ) == Some(e) && forall|h: int|
                    0 <= h < g ==> (#[trigger] group_patch_error(
                        old(self).spec_patch_states(),
                        *frame,
                        old(self).spec_max_cols(),
                        is_last_frame,
                        old(self).spec_config(),
                        old(self).spec_signals(),
                        old(self).spec_data_combs()[h].len() as int,
                        h,
                    )) is None,
            r matches Ok((ps, ended)) ==> {
                &&& final(self).wf()
                &&& final(self).spec_state() == if is_last_frame {
                    BlueprintState::Wires
                } else {
                    BlueprintState::Data
                }
                &&& ended == (is_last_frame || ps@.len() > 0)
                &&& is_last_frame ==> ps@.len() >= 1 && is_text(ps@.last(), "],\"wires\":["@)
                &&& ps@.len() > 0 && !is_last_frame ==> ps@.len() == 2 && is_text(ps@[0], ","@)
                    && ps@[1] is Entities
                &&& exists|p: Seq<Entity>|
                    #[trigger] frame_written(
                        old(self).spec_pending(),
                        p,
                        old(self).spec_patch_states(),
                        *frame,
                        old(self).spec_max_cols(),
                        is_last_frame,
                        old(self).spec_config(),
                        old(self).spec_signals(),
                        old(self).spec_data_combs(),
                        old(self).spec_n_groups(),
                    ) && ended == (is_last_frame || p.len() >= ENCODE_CHUNK_SIZE) && (!ended
                        ==> final(self).spec_pending() == p) && (ended ==> final(self).spec_pending().len() == 0) && (ended && p.len() > 0 ==> is_text(ps@[0], ","@)
                        && (ps@[1] matches Piece::Entities(v) && v@ == p)) && (is_last_frame
                        ==> kept_pieces(
                        ps@.subrange(if p.len() > 0 { 2int } else { 0int }, ps@.len() - 1),
                        old(self).spec_kept(),
                    ))
                &&& final(self).spec_patch_states().len() == old(self).spec_patch_states().len()
                &&& forall|g: int|
                    0 <= g < old(self).spec_n_groups() ==> #[trigger] final(self).spec_patch_states()[g] == patch_spec(
                        old(self).spec_patch_states()[g],
                        group_image(
                            *frame,
                            old(self).spec_args().grayscale_bits,
                            g,
                            old(self).spec_max_cols(),
                        ),
                        group_width(
                            g,
                            old(self).spec_max_cols(),
                            old(self).spec_dims().0 as int,
                        ) * old(self).spec_dims().1,
                        is_last_frame,
                        old(self).spec_config(),
                        old(self).spec_signals(),
                    ).st
            },
    {
        let gray_bits = self.args.grayscale_bits;
        let channels: u32 = if gray_bits > 0 {
            1
        } else {
            3
        };
        let cfg = PatchConfig {
            gray_bits,
            frames_per_cb: self.frames_per_cb,
            use_delta_comp: self.use_delta_comp,
            n_buf_frames: self.n_buf_frames,
            n_frames_per_chunk: self.n_frames_per_chunk,
            ticks_per_grp: self.ticks_per_frame * self.frames_per_cb,
        };
        let ghost old_states = self.spec_patch_states();
        let mut group_i: u32 = 0;
        while group_i < self.n_groups
            invariant
                self.wf(),
                self.state == BlueprintState::Data,
                self.args == old(self).args,
                self.args.mode != Mode::LampGrid,
                self.full_width == old(self).full_width,
                self.full_height == old(self).full_height,
                self.n_groups == old(self).n_groups,
                self.max_cols_per_grp == old(self).max_cols_per_grp,
                self.signals@ == old(self).signals@,
                self.spec_config() == old(self).spec_config(),
                cfg == self.spec_config(),
                channels == frame_channels(gray_bits),
                gray_bits == self.args.grayscale_bits,
                frame.wf(channels as int),
                frame.width == self.full_width,
                frame.height == self.full_height,
                0 <= group_i <= self.n_groups,
                self.spec_patch_states().len() == old_states.len(),
                old_states == old(self).spec_patch_states(),
                forall|g: int|
                    0 <= g < group_i ==> #[trigger] self.spec_patch_states()[g] == patch_spec(
                        old_states[g],
                        group_image(*frame, gray_bits, g, self.max_cols_per_grp as int),
                        group_width(g, self.max_cols_per_grp as int, self.full_width as int)
                            * self.full_height,
                        is_last_frame,
                        cfg,
                        self.signals@,
                    ).st,
                forall|g: int|
                    group_i <= g < self.n_groups ==> #[trigger] self.spec_patch_states()[g]
                        == old_states[g],
                self.group_data_combs@ == old(self).group_data_combs@,
                self.entity_data.ents@ == old(self).entity_data.ents@,
                forall|h: int|
                    0 <= h < group_i ==> (#[trigger] group_patch_error(
                        old_states,
                        *frame,
                        self.max_cols_per_grp as int,
                        is_last_frame,
                        cfg,
                        self.signals@,
                        old(self).spec_data_combs()[h].len() as int,
                        h,
                    )) is None,
                frame_written(
                    old(self).output_ents@,
                    self.output_ents@,
                    old_states,
                    *frame,
                    self.max_cols_per_grp as int,
                    is_last_frame,
                    cfg,
                    self.signals@,
                    old(self).spec_data_combs(),
                    group_i as int,
                ),
            decreases self.n_groups - group_i,
        {
            let gi = group_i as usize;
            proof {
                assert(group_i * self.max_cols_per_grp < self.full_width) by (nonlinear_arith)
                    requires
                        group_i < self.n_groups,
                        self.n_groups == (self.full_width + self.max_cols_per_grp - 1) / (
                        self.max_cols_per_grp as int),
                        self.max_cols_per_grp >= 1,
                ;
            }
            let grp_left = group_i * self.max_cols_per_grp;
            let grp_width = if self.max_cols_per_grp < self.full_width - grp_left {
                self.max_cols_per_grp
            } else {
                self.full_width - grp_left
            };
            let img = crop(frame, channels, grp_left, 0, grp_width, self.full_height);
            let ghost n = group_width(group_i as int, self.max_cols_per_grp as int, self.full_width as int) * self.full_height;
            proof {
                assert(img.width == grp_width);
                assert(img.height == self.full_height);
                assert(n == img.width * img.height);
                assert(img.data@ == group_image(*frame, gray_bits, group_i as int, self.max_cols_per_grp as int));
                assert(grp_width * self.full_height <= self.signals@.len()) by (nonlinear_arith)
                    requires
                        grp_width <= self.max_cols_per_grp,
                        self.max_cols_per_grp * self.full_height <= self.signals@.len(),
                ;
                assert(self.patch_states@[group_i as int] == self.patch_states@[gi as int]);
            }
            let ghost before = self.patch_states@;
            let ghost states_before = self.spec_patch_states();
            let ghost st0 = old_states[group_i as int];
            proof {
                assert(self.spec_patch_states()[group_i as int] == patch_state_view(before[gi as int]));
            }
            let mut st = self.patch_states.remove(gi);
            proof {
                assert(st == before[gi as int]);
                assert(patch_state_view(st) == st0);
            }
            let data_combs = &self.group_data_combs[gi];
            let n_combs = data_combs.len();
            let c = st.chunk_i;
            let fits = chunk_fits_exec(
                c,
                st.sig_buf.len(),
                cfg.n_buf_frames,
                cfg.n_frames_per_chunk,
                cfg.ticks_per_grp,
                n_combs,
                cfg.use_delta_comp,
            );
            let ghost gpe = group_patch_error(
                old_states,
                *frame,
                self.max_cols_per_grp as int,
                is_last_frame,
                cfg,
                self.signals@,
                n_combs as int,
                group_i as int,
            );
            proof {
                assert(n_combs == old(self).spec_data_combs()[group_i as int].len());
                assert(fits == ((st0.chunk_i + 1) * cfg.n_buf_frames <= u32::MAX && chunk_fits(
                    st0,
                    cfg,
                    n_combs as int,
                )));
            }
            if !fits {
                proof {
                    assert(gpe == Some(BlueprintError::MissingEntity));
                }
                return Err(BlueprintError::MissingEntity);
            }
            proof {
                assert(chunk_fits(st0, cfg, n_combs as int));
                lemma_windows_fit(st0, img.data@, n, is_last_frame, cfg, self.signals@, n_combs as int);
            }
            let ghost img_view = img.data@;
            let ghost img_n = (img.width * img.height) as int;
            let sig_slice = self.signals.as_slice();
            let ghost prev_out = self.output_ents@;
            let ghost combs_g = data_combs@;
            let res = patch_group(
                &mut st,
                img,
                is_last_frame,
                &cfg,
                data_combs,
                sig_slice,
                &mut self.output_ents,
            );
            match res {
                Ok(()) => {},
                Err(e) => {
                    proof {
                        assert(gpe == Some(e));
                    }
                    return Err(e);
                },
            }
            proof {
                assert(gpe is None);
                assert(sig_slice@ == self.signals@);
                assert(img_n == n);
                assert(patch_state_view(st) == patch_spec(
                    st0,
                    group_image(*frame, gray_bits, group_i as int, self.max_cols_per_grp as int),
                    n,
                    is_last_frame,
                    cfg,
                    self.signals@,
                ).st);
                lemma_patch_ready_kept(st0, group_image(*frame, gray_bits, group_i as int, self.max_cols_per_grp as int), n, is_last_frame, cfg, self.signals@);
                assert(combs_g == old(self).spec_data_combs()[group_i as int]);
                assert(windows_written(
                    prev_out,
                    self.output_ents@,
                    group_windows(old_states, *frame, self.max_cols_per_grp as int, is_last_frame, cfg, self.signals@, group_i as int),
                    old(self).spec_data_combs()[group_i as int],
                ));
                lemma_frame_written_step(
                    old(self).output_ents@,
                    prev_out,
                    self.output_ents@,
                    old_states,
                    *frame,
                    self.max_cols_per_grp as int,
                    is_last_frame,
                    cfg,
                    self.signals@,
                    old(self).spec_data_combs(),
                    group_i as int,
                );
            }
            self.patch_states.insert(gi, st);
            proof {
                assert(self.patch_states@ =~= before.update(gi as int, st));
                assert forall|g: int| 0 <= g < self.n_groups implies #[trigger] self.spec_patch_states()[g]
                    == if g < group_i + 1 {
                    patch_spec(
                        old_states[g],
                        group_image(*frame, gray_bits, g, self.max_cols_per_grp as int),
                        group_width(g, self.max_cols_per_grp as int, self.full_width as int)
                            * self.full_height,
                        is_last_frame,
                        cfg,
                        self.signals@,
                    ).st
                } else {
                    old_states[g]
                } by {
                    if g != gi {
                        assert(self.patch_states@[g] == before[g]);
                        assert(self.spec_patch_states()[g] == patch_state_view(before[g]));
                        assert(states_before[g] == patch_state_view(before[g]));
                    } else {
                        assert(self.spec_patch_states()[g] == patch_state_view(st));
                    }
                }
                assert forall|g: int| 0 <= g < self.n_groups implies patch_ready(
                    patch_state_view(#[trigger] self.patch_states@[g]),
                    group_width(g, self.max_cols_per_grp as int, self.full_width as int)
                        * self.full_height,
                    self.spec_config(),
                ) by {
                    if g != gi {
                        assert(self.patch_states@[g] == before[g]);
                    }
                }
            }
            group_i += 1;
        }
        let ghost written = self.output_ents@;
        proof {
            assert(frame_written(
                old(self).spec_pending(),
                written,
                old(self).spec_patch_states(),
                *frame,
                old(self).spec_max_cols(),
                is_last_frame,
                old(self).spec_config(),
                old(self).spec_signals(),
                old(self).spec_data_combs(),
                old(self).spec_n_groups(),
            ));
        }
        if is_last_frame {
            self.state = BlueprintState::Wires;
        }
        let mut ps: Vec<Piece> = Vec::new();
        let ended = is_last_frame || self.output_ents.len() >= ENCODE_CHUNK_SIZE;
        if ended {
            if self.output_ents.len() > 0 {
                let mut out: Vec<Entity> = Vec::new();
                std::mem::swap(&mut out, &mut self.output_ents);
                ps.push(Piece::Text(",".to_owned()));
                ps.push(Piece::Entities(out));
            }
            let ghost ps_data = ps@;
            if is_last_frame {
                // The entities placed earlier follow the data.
                let mut ents: Vec<Entity> = Vec::new();
                std::mem::swap(&mut ents, &mut self.entity_data.ents);
                let mut kept = chunk_kept_entities(ents);
                let ghost kept_v = kept@;
                ps.append(&mut kept);
                ps.push(Piece::Text("],\"wires\":[".to_owned()));
                proof {
                    assert(ps@.take(ps_data.len() as int) =~= ps_data);
                    assert(ps@.subrange(ps_data.len() as int, ps@.len() - 1) =~= kept_v);
                }
            }
            proof {
                if written.len() > 0 {
                    assert(ps@[0] == ps_data[0]);
                    assert(ps@[1] == ps_data[1]);
                }
            }
        }
        Ok((ps, ended))
    }
}

impl BlueprintGenerator {
    /// Ends the data part of a blueprint that holds no frame data (a bare
    /// lamp grid): the entities placed earlier follow, after a comma, a
    /// thousand at a time, then the text that opens the wires.
    pub fn finish_without_frames(&mut self) -> (ps: Vec<Piece>)
        requires
            old(self).wf(),
            old(self).spec_state() == BlueprintState::Data,
            old(self).spec_args().mode == Mode::LampGrid,
        ensures
            final(self).wf(),
            final(self).spec_state() == BlueprintState::Wires,
            final(self).spec_args() == old(self).spec_args(),
            final(self).spec_dims() == old(self).spec_dims(),
            ps@.len() >= 1,
            is_text(ps@.last(), "],\"wires\":["@),
            kept_pieces(ps@.drop_last(), old(self).spec_kept()),
    {
        self.state = BlueprintState::Wires;
        let mut ents: Vec<Entity> = Vec::new();
        std::mem::swap(&mut ents, &mut self.entity_data.ents);
        let mut ps = chunk_kept_entities(ents);
        let ghost kept_v = ps@;
        ps.push(Piece::Text("],\"wires\":[".to_owned()));
        proof {
            assert(ps@.drop_last() =~= kept_v);
        }
        ps
    }
}

/// Whether a group's next chunk fits (see `chunk_fits`), and its chunk
/// number stays within range.
pub(crate) fn chunk_fits_exec(
    c: usize,
    held: usize,
    nb: usize,
    nf: usize,
    tpg: u32,
    n_combs: usize,
    delta: bool,
) -> (r: bool)
    ensures
        r == ((c + 1) * nb <= u32::MAX && chunk_fits(
            PatchSpecState {
                chunk_i: c as int,
                frame_buf: Seq::empty(),
                sig_buf: Seq::new((held as nat), |i: int| Seq::<i32>::empty()),
            },
            PatchConfig {
                gray_bits: 0,
                frames_per_cb: 1,
                use_delta_comp: delta,
                n_buf_frames: nb,
                n_frames_per_chunk: nf,
                ticks_per_grp: tpg,
            },
            n_combs as int,
        )),
{
    let c1 = c as u128 + 1;
    let nb1 = nb as u128;
    let limit = u32::MAX as u128;
    proof {
        assert(c1 * nb1 <= 0x1_0000_0000_0000_0000 * 0xffff_ffff_ffff_ffff) by (nonlinear_arith)
            requires
                c1 <= 0x1_0000_0000_0000_0000,
                nb1 <= 0xffff_ffff_ffff_ffff,
        ;
    }
    if c1 * nb1 > limit {
        return false;
    }
    let cc = c as u128;
    let t = tpg as u128;
    proof {
        assert(cc * nb1 <= c1 * nb1) by (nonlinear_arith)
            requires
                cc + 1 == c1,
        ;
        assert(cc * t <= 0x1_0000_0000_0000_0000 * 0x1_0000_0000) by (nonlinear_arith)
            requires
                cc <= 0x1_0000_0000_0000_0000,
                t <= 0x1_0000_0000,
        ;
    }
    if delta {
        (c < n_combs) && cc * t + 2 <= limit
    } else {
        let stride = nb1 + nf as u128;
        let last = match cc.checked_mul(stride) {
            Some(first) => match first.checked_add(held as u128 + nf as u128) {
                Some(v) => v,
                None => {
                    return false;
                },
            },
            None => {
                return false;
            },
        };
        if last >= n_combs as u128 {
            return false;
        }
        let top = cc * nb1 + held as u128 + 1;
        match top.checked_mul(t) {
            Some(p) => p <= limit,
            None => false,
        }
    }
}

/// The wires `ws` in pieces of a thousand (the last may be shorter), with
/// commas between.
pub open spec fn wire_pieces(ps: Seq<Piece>, ws: Seq<Wire>) -> bool {
    let n = spec_div_ceil(ws.len() as int, ENCODE_CHUNK_SIZE as int);
    &&& ps.len() == if n == 0 {
        0
    } else {
        2 * n - 1
    }
    &&& forall|i: int|
        0 <= i < n ==> ((#[trigger] ps[2 * i]) matches Piece::Wires(c) && c@ == ws.subrange(
            1000 * i,
            if 1000 * (i + 1) < ws.len() {
                1000 * (i + 1)
            } else {
                ws.len() as int
            },
        ))
    &&& forall|i: int| 1 <= i < n ==> is_text(#[trigger] ps[2 * i - 1], ","@)
}

/// Splits wires into pieces of a thousand, with commas between.
fn chunk_wires(ws: Vec<Wire>) -> (ps: Vec<Piece>)
    ensures
        wire_pieces(ps@, ws@),
{
    let ghost all = ws@;
    let n = ws.len();
    let mut rest = ws;
    let mut ps: Vec<Piece> = Vec::new();
    let mut done: usize = 0;
    let mut i: usize = 0;
    while done < n
        invariant
            n == all.len(),
            0 <= done <= n,
            done == if 1000 * i < n {
                1000 * i
            } else {
                n as int
            },
            i <= spec_div_ceil(n as int, 1000),
            done < n ==> done == 1000 * i,
            i > 0 ==> 1000 * (i - 1) < n,
            rest@ == all.subrange(done as int, n as int),
            ps@.len() == if i == 0 {
                0
            } else {
                2 * i - 1
            },
            forall|j: int|
                0 <= j < i ==> ((#[trigger] ps@[2 * j]) matches Piece::Wires(c) && c@
                    == all.subrange(
                    1000 * j,
                    if 1000 * (j + 1) < n {
                        1000 * (j + 1)
                    } else {
                        n as int
                    },
                )),
            forall|j: int| 1 <= j < i ==> is_text(#[trigger] ps@[2 * j - 1], ","@),
        decreases n - done,
    {
        let mut chunk: Vec<Wire> = Vec::new();
        let mut k: usize = 0;
        while k < 1000 && rest.len() > 0
            invariant
                n == all.len(),
                0 <= k <= 1000,
                done + k <= n,
                rest@ == all.subrange(done + k, n as int),
                chunk@ == all.subrange(done as int, done + k),
            decreases 1000 - k,
        {
            let w = rest.remove(0);
            chunk.push(w);
            proof {
                assert(chunk@ =~= all.subrange(done as int, done + k + 1));
                assert(rest@ =~= all.subrange(done + k + 1, n as int));
            }
            k += 1;
        }
        let ghost prev = ps@;
        if i > 0 {
            ps.push(Piece::Text(",".to_owned()));
        }
        ps.push(Piece::Wires(chunk));
        proof {
            assert(done + k == if 1000 * (i + 1) < n {
                1000 * (i + 1)
            } else {
                n as int
            });
            assert(i + 1 <= spec_div_ceil(n as int, 1000)) by (nonlinear_arith)
                requires
                    done == 1000 * i,
                    done < n,
            ;
            assert forall|j: int|
                0 <= j < i + 1 implies ((#[trigger] ps@[2 * j]) matches Piece::Wires(c) && c@
                    == all.subrange(
                    1000 * j,
                    if 1000 * (j + 1) < n {
                        1000 * (j + 1)
                    } else {
                        n as int
                    },
                )) by {
                if j < i {
                    assert(ps@[2 * j] == prev[2 * j]);
                }
            }
        }
        done = done + k;
        i += 1;
    }
    proof {
        assert(i == spec_div_ceil(n as int, 1000)) by (nonlinear_arith)
            requires
                done == n,
                done == (if 1000 * i < n {
                    1000 * i
                } else {
                    n as int
                }),
                i <= (n + 999) / 1000,
                i == 0 ==> done == 0,
                i > 0 ==> 1000 * (i - 1) < n,
        ;
    }
    ps
}

/// Entities written after others: a comma before each piece of a thousand.
pub open spec fn kept_pieces(ps: Seq<Piece>, ents: Seq<Entity>) -> bool {
    let n = spec_div_ceil(ents.len() as int, ENCODE_CHUNK_SIZE as int);
    &&& ps.len() == 2 * n
    &&& forall|i: int|
        0 <= i < n ==> is_text(#[trigger] ps[2 * i], ","@) && (ps[2 * i + 1] matches Piece::Entities(
            c,
        ) && c@ == ents.subrange(
            1000 * i,
            if 1000 * (i + 1) < ents.len() {
                1000 * (i + 1)
            } else {
                ents.len() as int
            },
        ))
}

/// Splits entities into pieces of a thousand, each after a comma.
#[verifier::spinoff_prover]
fn chunk_kept_entities(ents: Vec<Entity>) -> (ps: Vec<Piece>)
    ensures
        kept_pieces(ps@, ents@),
{
    let ghost all = ents@;
    let n = ents.len();
    let mut rest = ents;
    let mut ps: Vec<Piece> = Vec::new();
    let mut done: usize = 0;
    let mut i: usize = 0;
    while done < n
        invariant
            n == all.len(),
            0 <= done <= n,
            done == if 1000 * i < n {
                1000 * i
            } else {
                n as int
            },
            i <= spec_div_ceil(n as int, 1000),
            done < n ==> done == 1000 * i,
            i > 0 ==> 1000 * (i - 1) < n,
            rest@ == all.subrange(done as int, n as int),
            ps@.len() == 2 * i,
            forall|j: int|
                0 <= j < i ==> is_text(#[trigger] ps@[2 * j], ","@) && (ps@[2 * j + 1] matches Piece::Entities(
                    c,
                ) && c@ == all.subrange(
                    1000 * j,
                    if 1000 * (j + 1) < n {
                        1000 * (j + 1)
                    } else {
                        n as int
                    },
                )),
        decreases n - done,
    {
        let mut chunk: Vec<Entity> = Vec::new();
        let mut k: usize = 0;
        while k < 1000 && rest.len() > 0
            invariant
                n == all.len(),
                0 <= k <= 1000,
                done + k <= n,
                rest@ == all.subrange(done + k, n as int),
                chunk@ == all.subrange(done as int, done + k),
            decreases 1000 - k,
        {
            let e = rest.remove(0);
            chunk.push(e);
            proof {
                assert(chunk@ =~= all.subrange(done as int, done + k + 1));
                assert(rest@ =~= all.subrange(done + k + 1, n as int));
            }
            k += 1;
        }
        let ghost prev = ps@;
        ps.push(Piece::Text(",".to_owned()));
        ps.push(Piece::Entities(chunk));
        proof {
            assert(done + k == if 1000 * (i + 1) < n {
                1000 * (i + 1)
            } else {
                n as int
            });
            assert(i + 1 <= spec_div_ceil(n as int, 1000)) by (nonlinear_arith)
                requires
                    done == 1000 * i,
                    done < n,
            ;
            assert forall|j: int| 0 <= j < i + 1 implies is_text(#[trigger] ps@[2 * j], ","@) && (
            ps@[2 * j + 1] matches Piece::Entities(c) && c@ == all.subrange(
                1000 * j,
                if 1000 * (j + 1) < n {
                    1000 * (j + 1)
                } else {
                    n as int
                },
            )) by {
                if j < i {
                    assert(ps@[2 * j] == prev[2 * j]);
                    assert(ps@[2 * j + 1] == prev[2 * j + 1]);
                }
            }
        }
        done = done + k;
        i += 1;
    }
    proof {
        assert(i == spec_div_ceil(n as int, 1000)) by (nonlinear_arith)
            requires
                done == n,
                done == (if 1000 * i < n {
                    1000 * i
                } else {
                    n as int
                }),
                i <= (n + 999) / 1000,
                i == 0 ==> done == 0,
                i > 0 ==> 1000 * (i - 1) < n,
        ;
        assert forall|j: int| 0 <= j < spec_div_ceil(all.len() as int, ENCODE_CHUNK_SIZE as int) implies is_text(
            #[trigger] ps@[2 * j],
            ","@,
        ) && (ps@[2 * j + 1] matches Piece::Entities(c) && c@ == all.subrange(
            1000 * j,
            if 1000 * (j + 1) < all.len() {
                1000 * (j + 1)
            } else {
                all.len() as int
            },
        )) by {
            assert(j < i);
            assert(is_text(ps@[2 * j], ","@));
            assert(1000 * (j + 1) < all.len() <==> 1000 * (j + 1) < n);
        }
        assert(spec_div_ceil(all.len() as int, ENCODE_CHUNK_SIZE as int) == i);
        assert(kept_pieces(ps@, all));
    }
    ps
}

/// Lamp pieces of `n` groups: each group's lamps, with commas between.
pub open spec fn lamp_pieces(ps: Seq<Piece>, n: int) -> bool {
    &&& ps.len() == if n == 0 {
        0
    } else {
        2 * n - 1
    }
    &&& forall|i: int| 0 <= i < n ==> #[trigger] ps[2 * i] is Entities
    &&& forall|i: int| 1 <= i < n ==> is_text(#[trigger] ps[2 * i - 1], ","@)
}

/// `p` is the text `t`.
pub open spec fn is_text(p: Piece, t: Seq<char>) -> bool {
    p matches Piece::Text(s) && s@ == t
}

/// Whether lamps show fixed colours.
fn is_static(mode: &Mode) -> (r: bool)
    ensures
        r == is_static_colors(*mode),
{
    match mode {
        Mode::Static { combs: false, .. } => true,
        _ => false,
    }
}

/// A copy of some bytes.
fn copy_bytes(v: &Vec<u8>) -> (r: Vec<u8>)
    ensures
        r@ == v@,
{
    let mut r: Vec<u8> = Vec::new();
    let mut i: usize = 0;
    while i < v.len()
        invariant
            0 <= i <= v@.len(),
            r@ == v@.take(i as int),
        decreases v@.len() - i,
    {
        r.push(v[i]);
        proof {
            assert(r@ =~= v@.take(i + 1));
        }
        i += 1;
    }
    proof {
        assert(r@ =~= v@);
    }
    r
}

/// The columns `x..x + w` of an RGBA frame, full height.
fn crop_rgba(f: &RgbaFrame, x: u32, w: u32) -> (r: RgbaFrame)
    requires
        f.wf(),
        x + w <= f.width,
    ensures
        r.wf(),
        r.width == w,
        r.height == f.height,
        forall|c: int, y: int, ch: int|
            0 <= c < w && 0 <= y < f.height && 0 <= ch < 4 ==> r.spec_channel(c, y, ch)
                == f.spec_channel(x + c, y, ch),
{
    let img = Raster { width: f.width, height: f.height, data: copy_bytes(&f.data) };
    let c = crop(&img, 4, x, 0, w, f.height);
    proof {
        assert forall|cc: int, y: int, ch: int|
            0 <= cc < w && 0 <= y < f.height && 0 <= ch < 4 implies (RgbaFrame {
            width: c.width,
            height: c.height,
            data: c.data,
        }).spec_channel(cc, y, ch) == f.spec_channel(x + cc, y, ch) by {
            crate::blueprint::util::lemma_crop_index(img, 4, x as int, 0, w as int, f.height as int, cc, y, ch);
        }
    }
    RgbaFrame { width: c.width, height: c.height, data: c.data }
}

/// Entities ordered by entity number (equal numbers keep their order).
pub(crate) fn sort_by_entity_number(v: Vec<Entity>) -> (r: Vec<Entity>)
    ensures
        r@.to_multiset() == v@.to_multiset(),
        forall|i: int, j: int|
            0 <= i <= j < r@.len() ==> r@[i].entity_number <= r@[j].entity_number,
        (forall|i: int, j: int|
            0 <= i <= j < v@.len() ==> v@[i].entity_number <= v@[j].entity_number) ==> r@ == v@,
{
    broadcast use vstd::seq_lib::group_to_multiset_ensures;

    let ghost input = v@;
    let ghost sorted = forall|i: int, j: int|
        0 <= i <= j < input.len() ==> input[i].entity_number <= input[j].entity_number;
    let mut rest = v;
    let mut out: Vec<Entity> = Vec::new();
    let n = rest.len();
    let mut k: usize = 0;
    while k < n
        invariant
            n == input.len(),
            0 <= k <= n,
            rest@ == input.subrange(k as int, n as int),
            out@.to_multiset() == input.take(k as int).to_multiset(),
            forall|i: int, j: int|
                0 <= i <= j < out@.len() ==> out@[i].entity_number <= out@[j].entity_number,
            sorted == forall|i: int, j: int|
                0 <= i <= j < input.len() ==> input[i].entity_number <= input[j].entity_number,
            sorted ==> out@ == input.take(k as int),
        decreases n - k,
    {
        let e = rest.remove(0);
        let key = e.entity_number;
        proof {
            assert(e == input[k as int]);
        }
        let mut pos: usize = 0;
        while pos < out.len() && out[pos].entity_number <= key
            invariant
                0 <= pos <= out@.len(),
                forall|q: int| 0 <= q < pos ==> (#[trigger] out@[q]).entity_number <= key,
                sorted ==> out@ == input.take(k as int),
                sorted ==> forall|i: int, j: int|
                    0 <= i <= j < input.len() ==> input[i].entity_number <= input[j].entity_number,
                key == input[k as int].entity_number,
                k < input.len(),
            decreases out@.len() - pos,
        {
            pos += 1;
        }
        proof {
            if sorted && pos < out@.len() {
                assert(out@[pos as int] == input[pos as int]);
                assert(input[pos as int].entity_number <= input[k as int].entity_number);
            }
        }
        let ghost before = out@;
        proof {
            assert(e == input[k as int]);
        }
        out.insert(pos, e);
        proof {
            assert(out@ == before.insert(pos as int, e));
            assert forall|i: int, j: int| 0 <= i <= j < out@.len() implies out@[i].entity_number
                <= out@[j].entity_number by {
                if j < pos {
                } else if j == pos {
                    if i < pos {
                        assert(before[i].entity_number <= key);
                    }
                } else if i < pos {
                    assert(before[i].entity_number <= key);
                    assert(!(before[pos as int].entity_number <= key));
                    assert(before[pos as int].entity_number <= before[j - 1].entity_number);
                } else if i == pos {
                    assert(!(before[pos as int].entity_number <= key));
                    assert(before[pos as int].entity_number <= before[j - 1].entity_number);
                } else {
                    assert(before[i - 1].entity_number <= before[j - 1].entity_number);
                }
            }
            assert(rest@ =~= input.subrange(k + 1, n as int));
            assert(input.take(k + 1) =~= input.take(k as int).push(e));
            vstd::seq_lib::to_multiset_insert(before, pos as int, e);
            assert(out@.to_multiset() == before.to_multiset().insert(e));
            assert(input.take(k as int).push(e) =~= input.take(k as int).insert(k as int, e));
            vstd::seq_lib::to_multiset_insert(input.take(k as int), k as int, e);
            if sorted {
                assert(out@ =~= input.take(k + 1));
            }
        }
        k += 1;
    }
    proof {
        assert(input.take(n as int) =~= input);
    }
    out
}

} // verus!
