use giftorio::blueprint::blueprint::{patch_group, GroupPatchState, PatchConfig};
use giftorio::blueprint::models::{ControlBehavior, Entity, Position, Signal};
use giftorio::blueprint::util::Raster;

fn signals() -> Vec<Signal> {
    vec![Signal::new_virtual("signal-A".to_string()), Signal::new_virtual("signal-B".to_string())]
}

fn templates(first: u32, n: u32) -> Vec<Entity> {
    (0..n)
        .map(|i| Entity::new(first + i, "decider-combinator".to_string(), Position::new(0, 2 * i as i64)))
        .collect()
}

/// A 2x1 colour frame of the given pixel values (blue channel only).
fn frame(p0: u8, p1: u8) -> Raster {
    Raster { width: 2, height: 1, data: vec![0, 0, p0, 0, 0, p1] }
}

/// Entity number, tick window and outputs of a written data combinator.
fn window(e: &Entity) -> (u32, i32, i32, Vec<(String, i32)>) {
    match &e.control_behavior {
        Some(ControlBehavior::Decider { decider_conditions: d }) => {
            let c = d.conditions.as_ref().unwrap();
            let outs = d
                .outputs
                .as_ref()
                .unwrap()
                .iter()
                .map(|o| (o.signal.as_ref().unwrap().name.clone(), o.constant.unwrap()))
                .collect();
            (e.entity_number, c[0].constant.unwrap(), c[1].constant.unwrap(), outs)
        },
        _ => panic!("not a data combinator"),
    }
}

fn empty_state() -> GroupPatchState {
    GroupPatchState { chunk_i: 0, frame_buf: Vec::new(), sig_buf: Vec::new() }
}

#[test]
fn temporal_window_splits_changing_and_still_pixels() {
    let cfg = PatchConfig {
        gray_bits: 0,
        frames_per_cb: 1,
        use_delta_comp: false,
        n_buf_frames: 2,
        n_frames_per_chunk: 1,
        ticks_per_grp: 3,
    };
    let combs = templates(10, 3);
    let sigs = signals();
    let mut st = empty_state();
    let mut out: Vec<Entity> = Vec::new();
    patch_group(&mut st, frame(1, 5), false, &cfg, &combs, &sigs, &mut out).unwrap();
    assert!(out.is_empty());
    assert_eq!(st.sig_buf.len(), 1);
    patch_group(&mut st, frame(2, 5), false, &cfg, &combs, &sigs, &mut out).unwrap();
    assert_eq!(st.chunk_i, 1);
    assert!(st.sig_buf.is_empty());
    let got: Vec<_> = out.iter().map(window).collect();
    assert_eq!(
        got,
        vec![
            (11, 0, 3, vec![("signal-A".to_string(), 1)]),
            (12, 3, 6, vec![("signal-A".to_string(), 2)]),
            (10, 0, 6, vec![("signal-B".to_string(), 5)]),
        ]
    );
}

#[test]
fn temporal_single_frame_writes_every_pixel() {
    let cfg = PatchConfig {
        gray_bits: 0,
        frames_per_cb: 1,
        use_delta_comp: false,
        n_buf_frames: 1,
        n_frames_per_chunk: 0,
        ticks_per_grp: 2,
    };
    let combs = templates(1, 2);
    let sigs = signals();
    let mut st = empty_state();
    let mut out: Vec<Entity> = Vec::new();
    patch_group(&mut st, frame(0, 7), false, &cfg, &combs, &sigs, &mut out).unwrap();
    patch_group(&mut st, frame(3, 7), true, &cfg, &combs, &sigs, &mut out).unwrap();
    let got: Vec<_> = out.iter().map(window).collect();
    // Zero pixels are left out.
    assert_eq!(
        got,
        vec![
            (1, 0, 2, vec![("signal-B".to_string(), 7)]),
            (2, 2, 4, vec![("signal-A".to_string(), 3), ("signal-B".to_string(), 7)]),
        ]
    );
}

#[test]
fn delta_chunks_add_up_to_the_frames() {
    let cfg = PatchConfig {
        gray_bits: 0,
        frames_per_cb: 1,
        use_delta_comp: true,
        n_buf_frames: 1,
        n_frames_per_chunk: 0,
        ticks_per_grp: 3,
    };
    let combs = templates(20, 3);
    let sigs = signals();
    let mut st = empty_state();
    let mut out: Vec<Entity> = Vec::new();
    let frames = [(1u8, 5u8), (2, 5), (0, 9)];
    for (i, (a, b)) in frames.iter().enumerate() {
        patch_group(&mut st, frame(*a, *b), i == frames.len() - 1, &cfg, &combs, &sigs, &mut out).unwrap();
    }
    let got: Vec<_> = out.iter().map(window).collect();
    assert_eq!(
        got,
        vec![
            (20, 1, 2, vec![("signal-A".to_string(), 1), ("signal-B".to_string(), 5)]),
            (21, 4, 5, vec![("signal-A".to_string(), 1)]),
            (22, 7, 8, vec![("signal-A".to_string(), -2), ("signal-B".to_string(), 4)]),
        ]
    );
    // Summing the changes gives back each frame.
    let mut acc = [0i32; 2];
    for (k, (_, _, _, outs)) in got.iter().enumerate() {
        for (name, v) in outs {
            let i = if name == "signal-A" { 0 } else { 1 };
            acc[i] = acc[i].wrapping_add(*v);
        }
        assert_eq!(acc, [frames[k].0 as i32, frames[k].1 as i32]);
    }
}

#[test]
fn grayscale_frames_wait_for_a_full_combinator() {
    let cfg = PatchConfig {
        gray_bits: 8,
        frames_per_cb: 4,
        use_delta_comp: false,
        n_buf_frames: 1,
        n_frames_per_chunk: 0,
        ticks_per_grp: 8,
    };
    let combs = templates(5, 1);
    let sigs = signals();
    let mut st = empty_state();
    let mut out: Vec<Entity> = Vec::new();
    let gray = |a: u8, b: u8| Raster { width: 2, height: 1, data: vec![a, b] };
    patch_group(&mut st, gray(1, 0), false, &cfg, &combs, &sigs, &mut out).unwrap();
    patch_group(&mut st, gray(2, 0), false, &cfg, &combs, &sigs, &mut out).unwrap();
    assert!(out.is_empty());
    assert_eq!(st.frame_buf.len(), 2);
    // The last frame flushes what is there.
    patch_group(&mut st, gray(3, 4), true, &cfg, &combs, &sigs, &mut out).unwrap();
    let got: Vec<_> = out.iter().map(window).collect();
    assert_eq!(
        got,
        vec![(5, 0, 8, vec![("signal-A".to_string(), 0x030201), ("signal-B".to_string(), 0x040000)])]
    );
}
