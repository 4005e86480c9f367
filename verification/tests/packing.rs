use giftorio::blueprint::models::{
    CombinatorOutput, Condition, ControlBehavior, DeciderConditions, Entity, NetworkFilters,
    Position, Signal, Wire,
};
use giftorio::blueprint::util::{
    color_frame_to_outputs, crop, grayscale_frames_to_outputs, invert_wires, rgba_to_rgb_simd,
    BlueprintError, Raster,
};
use giftorio::image_processing::rgb_to_int;

#[test]
fn rgb_packs_into_24_bits() {
    assert_eq!(rgb_to_int(0x12, 0x34, 0x56), 0x123456);
    assert_eq!(rgb_to_int(255, 255, 255), 0xFFFFFF);
    assert_eq!(rgb_to_int(0, 0, 0), 0);
}

#[test]
fn colour_frame_one_value_per_pixel() {
    let out = color_frame_to_outputs(&[1, 2, 3, 255, 0, 16, 9]).unwrap();
    assert_eq!(out, vec![0x010203, 0xFF0010]);
    let old = giftorio::blueprint::color_frame_to_outputs(&[1, 2, 3]).unwrap();
    assert_eq!(old, vec![0x010203]);
}

#[test]
fn rgba_ignores_alpha() {
    assert_eq!(rgba_to_rgb_simd(&[1, 2, 3, 4, 5, 6, 7, 8]), vec![0x010203, 0x050607]);
}

#[test]
fn grayscale_one_bit_threshold() {
    let frames = vec![vec![0u8, 128, 255], vec![200u8, 127, 128]];
    let out = grayscale_frames_to_outputs(&frames, 1).unwrap();
    assert_eq!(out, vec![0b10, 0b01, 0b11]);
}

#[test]
fn grayscale_four_and_eight_bits() {
    let frames = vec![vec![0x1Fu8, 0xF0], vec![0x20u8, 0x0F]];
    assert_eq!(grayscale_frames_to_outputs(&frames, 4).unwrap(), vec![0x21, 0x0F]);
    assert_eq!(grayscale_frames_to_outputs(&frames, 8).unwrap(), vec![0x201F, 0x0FF0]);
    let four = vec![vec![1u8], vec![2u8], vec![3u8], vec![0x80u8]];
    assert_eq!(grayscale_frames_to_outputs(&four, 8).unwrap(), vec![0x80030201u32 as i32]);
}

#[test]
fn grayscale_errors() {
    let none: Vec<Vec<u8>> = Vec::new();
    assert!(matches!(grayscale_frames_to_outputs(&none, 8), Err(BlueprintError::NoFramesProvided)));
    let frames = vec![vec![1u8, 2]];
    assert!(matches!(
        grayscale_frames_to_outputs(&frames, 3),
        Err(BlueprintError::UnsupportedGrayscaleBitDepth)
    ));
    // The column layout packs frames without pixels to nothing, whatever the depth.
    let empty = vec![Vec::<u8>::new()];
    assert_eq!(giftorio::blueprint::grayscale_frames_to_outputs(&empty, 3).unwrap(), Vec::<i32>::new());
    assert!(matches!(
        giftorio::blueprint::grayscale_frames_to_outputs(&frames, 3),
        Err(BlueprintError::UnsupportedGrayscaleBitDepth)
    ));
    assert!(matches!(
        giftorio::blueprint::grayscale_frames_to_outputs(&none, 1),
        Err(BlueprintError::NoFramesProvided)
    ));
}

#[test]
fn crop_clips_to_the_image() {
    // 3x2 image, one byte per pixel.
    let img = Raster { width: 3, height: 2, data: vec![1, 2, 3, 4, 5, 6] };
    let c = crop(&img, 1, 1, 0, 5, 2);
    assert_eq!((c.width, c.height), (2, 2));
    assert_eq!(c.data, vec![2, 3, 5, 6]);
    let c = crop(&img, 1, 3, 0, 1, 2);
    assert_eq!((c.width, c.height), (0, 2));
    assert!(c.data.is_empty());
}

fn decider_entity(n: u32) -> Entity {
    let cond = Condition::new(Signal::new_virtual("signal-T".to_string()), 0, ">=")
        .with_first_signal_networks(NetworkFilters::red());
    let out = CombinatorOutput::new(Signal::new_virtual("signal-A".to_string()), Some(1))
        .with_networks(NetworkFilters::green());
    Entity::new(n, "decider-combinator".to_string(), Position::new(1, 1)).with_control_behavior(
        ControlBehavior::from_decider_conditions(DeciderConditions {
            conditions: Some(vec![cond]),
            outputs: Some(vec![out]),
        }),
    )
}

fn networks(e: &Entity) -> (NetworkFilters, NetworkFilters) {
    match &e.control_behavior {
        Some(ControlBehavior::Decider { decider_conditions }) => (
            decider_conditions.conditions.as_ref().unwrap()[0].first_signal_networks.unwrap(),
            decider_conditions.outputs.as_ref().unwrap()[0].networks.unwrap(),
        ),
        _ => panic!("not a decider"),
    }
}

#[test]
fn inverting_swaps_wire_colours_and_filters() {
    let mut ents = vec![decider_entity(1), Entity::new(2, "small-lamp".to_string(), Position::new(3, 3))];
    let mut wires: Vec<Wire> = vec![[1, 1, 2, 2], [1, 3, 2, 4], [1, 5, 2, 6]];
    invert_wires(&mut ents, &mut wires);
    assert_eq!(wires, vec![[1, 2, 2, 1], [1, 4, 2, 3], [1, 5, 2, 6]]);
    let (c, o) = networks(&ents[0]);
    assert_eq!((c.red, c.green), (false, true));
    assert_eq!((o.red, o.green), (true, false));
    assert!(ents[1].control_behavior.is_none());
}

#[test]
fn inverting_twice_restores() {
    let mut ents = vec![decider_entity(1)];
    let orig: Vec<Wire> = vec![[1, 1, 2, 2], [1, 3, 2, 4], [4, 5, 7, 1]];
    let mut wires = orig.clone();
    invert_wires(&mut ents, &mut wires);
    invert_wires(&mut ents, &mut wires);
    assert_eq!(wires, orig);
    let (c, o) = networks(&ents[0]);
    assert_eq!((c.red, c.green), (true, false));
    assert_eq!((o.red, o.green), (false, true));
}
