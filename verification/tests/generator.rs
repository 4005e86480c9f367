use giftorio::blueprint::blueprint::{max_cols_for, BlueprintGenerator, Piece};
use giftorio::blueprint::combinator::layout_is_ready;
use giftorio::blueprint::signals::SignalEntry;
use giftorio::blueprint::util::{BlueprintError, Raster};
use giftorio::models::{
    BlueprintArgs, FlippedAxes, ImageMetadata, ImageRotation, Mode, OutputFormat, ResamplingFilter,
    SignalCompression, SignalSorting,
};

fn gen_args(mode: Mode, grayscale_bits: u32, compression: Option<SignalCompression>) -> BlueprintArgs {
    BlueprintArgs {
        name: Some("grid".to_string()),
        comb_pos_json: String::new(),
        custom_height: None,
        custom_width: None,
        flipped_axes: FlippedAxes::Neither,
        grayscale_bits,
        image_metadata: ImageMetadata { image_type: None, image_size: None },
        image_rotation: ImageRotation::Deg0,
        lamp_margin_y: 0,
        max_group_size: None,
        max_size: 100,
        mode,
        output_format: OutputFormat::Json,
        prefer_green_wires: true,
        prefer_horizontal_wires: false,
        sampling_filter: ResamplingFilter::Nearest,
        signal_compression: compression,
        signal_sorting: SignalSorting::Unsorted,
        substation_quality: None,
        target_fps: 30,
        use_dlc: false,
    }
}

fn gen_entries(n: usize) -> Vec<SignalEntry> {
    (0..n).map(|i| SignalEntry { type_: "item".to_string(), name: format!("item-{i}") }).collect()
}

fn piece_text(p: &Piece) -> &str {
    match p {
        Piece::Text(s) => s.as_str(),
        _ => panic!("not text"),
    }
}

#[test]
fn generator_errors() {
    let a = gen_args(Mode::LampGrid, 0, None);
    assert!(matches!(
        BlueprintGenerator::new(0, 2, 2, a, &gen_entries(2), Vec::new(), None),
        Err(BlueprintError::NoSampledFrames)
    ));
    let a = gen_args(Mode::LampGrid, 0, None);
    assert!(matches!(
        BlueprintGenerator::new(3, 2, 2, a, &gen_entries(0), Vec::new(), None),
        Err(BlueprintError::NotEnoughSignals)
    ));
}

#[test]
fn group_width_follows_signals() {
    let a = gen_args(Mode::Full, 0, None);
    assert_eq!(max_cols_for(10, 8, 3, &a), 3);
    assert_eq!(max_cols_for(100, 8, 3, &a), 8);
    let mut b = gen_args(Mode::Full, 0, None);
    b.max_group_size = Some(2);
    assert_eq!(max_cols_for(100, 8, 3, &b), 2);
}

#[test]
fn layouts_needed_for_helpers() {
    // Without compression or grayscale no helper is needed.
    assert!(layout_is_ready(&Vec::new(), &gen_args(Mode::Full, 0, None), 4));
    // Delta compression needs a delay and a memory cell; grayscale needs a shift.
    assert!(!layout_is_ready(&Vec::new(), &gen_args(Mode::Full, 0, Some(SignalCompression::Delta)), 4));
    assert!(!layout_is_ready(&Vec::new(), &gen_args(Mode::Full, 8, None), 4));
}

#[test]
fn lamp_grid_blueprint_in_pieces() {
    let a = gen_args(Mode::LampGrid, 0, None);
    let mut g = BlueprintGenerator::new(1, 2, 2, a, &gen_entries(2), Vec::new(), None).unwrap();
    assert!(!g.done());
    let start = g.next_chunk().unwrap().unwrap();
    assert_eq!(start.len(), 3);
    assert_eq!(piece_text(&start[0]), "{\"blueprint\":{");
    match &start[1] {
        Piece::Header(h) => {
            assert_eq!(h.label.as_deref(), Some("grid"));
            assert_eq!(h.item, "blueprint");
        },
        _ => panic!("header expected"),
    }
    assert_eq!(piece_text(&start[2]), ",\"entities\":[");
    let lamps = g.next_chunk().unwrap().unwrap();
    // One group of lamps: its lamps in one piece.
    assert_eq!(lamps.len(), 1);
    match &lamps[0] {
        Piece::Entities(v) => assert_eq!(v.iter().filter(|e| e.name == "small-lamp").count(), 4),
        _ => panic!("lamps expected"),
    }
    assert!(g.needs_frames());
    let rest = g.finish_without_frames();
    assert_eq!(piece_text(rest.last().unwrap()), "],\"wires\":[");
    assert!(!g.needs_frames());
    let wires = g.next_chunk().unwrap().unwrap();
    assert_eq!(piece_text(wires.last().unwrap()), "]}}");
    assert!(g.done());
    assert!(g.next_chunk().unwrap().is_none());
}

#[test]
fn full_blueprint_takes_frames() {
    let a = gen_args(Mode::Full, 0, None);
    let mut g = BlueprintGenerator::new(2, 2, 2, a, &gen_entries(2), Vec::new(), None).unwrap();
    g.next_chunk().unwrap().unwrap();
    g.next_chunk().unwrap().unwrap();
    assert!(g.needs_frames());
    let f1 = Raster { width: 2, height: 2, data: vec![0, 0, 1, 0, 0, 2, 0, 0, 3, 0, 0, 0] };
    let (ps, ended) = g.populate_frame(&f1, false).unwrap();
    assert!(!ended);
    assert!(ps.is_empty());
    let f2 = Raster { width: 2, height: 2, data: vec![0, 0, 4, 0, 0, 2, 0, 0, 3, 0, 0, 5] };
    let (ps, ended) = g.populate_frame(&f2, true).unwrap();
    assert!(ended);
    assert_eq!(piece_text(&ps[0]), ",");
    // The data of both frames: one combinator per frame, each with the
    // non-zero pixels of its frame.
    match &ps[1] {
        Piece::Entities(v) => {
            assert_eq!(v.len(), 2);
            for e in v {
                assert_eq!(e.name, "decider-combinator");
            }
        },
        _ => panic!("data expected"),
    }
    assert_eq!(piece_text(ps.last().unwrap()), "],\"wires\":[");
    let wires = g.next_chunk().unwrap().unwrap();
    assert_eq!(piece_text(wires.last().unwrap()), "]}}");
    assert!(g.done());
}
