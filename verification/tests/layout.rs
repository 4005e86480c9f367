use giftorio::blueprint::combinator::{decode_blueprint_string, normalize_layout};
use giftorio::blueprint::models::{Entity, Position, Quality};
use giftorio::blueprint::signals::SignalEntry;
use giftorio::blueprint::sort::sort_pairs;
use giftorio::blueprint::substation::SubstationOccupied;
use giftorio::blueprint::text::{decimal_string, half_string};
use giftorio::blueprint::util::{BlueprintError, Raster};
use giftorio::blueprint::{generate_blueprint, BlueprintArgs, BlueprintEncoder};
use giftorio::blueprint::blueprint::Piece;
use std::io::Write;

fn blueprint_string(json: &str) -> String {
    let mut z = flate2::write::ZlibEncoder::new(Vec::new(), flate2::Compression::default());
    z.write_all(json.as_bytes()).unwrap();
    let bytes = z.finish().unwrap();
    format!("0{}", base64::encode(bytes))
}

#[test]
fn blueprint_string_decodes_to_its_json() {
    let json = "{\"blueprint\":{\"item\":\"blueprint\"}}";
    let s = blueprint_string(json);
    assert_eq!(decode_blueprint_string(&s).unwrap(), json);
}

#[test]
fn bad_blueprint_strings_are_base64_errors() {
    assert!(matches!(decode_blueprint_string("0!!!!"), Err(BlueprintError::Base64)));
    // Valid base64, but not a zlib stream.
    let s = format!("0{}", base64::encode(b"not zlib"));
    assert!(matches!(decode_blueprint_string(&s), Err(BlueprintError::Base64)));
}

#[test]
fn layout_moves_to_the_origin() {
    let dec = Entity::new(1, "decider-combinator".to_string(), Position::new(2, 2)).with_direction(0);
    let cons = Entity::new(2, "constant-combinator".to_string(), Position::new(5, 1));
    let (ents, dim) = normalize_layout(vec![dec, cons]).unwrap();
    assert_eq!(dim, Position::new(5, 4));
    assert_eq!(ents[0].position, Position::new(1, 2));
    assert_eq!(ents[1].position, Position::new(4, 1));
    let (none, dim) = normalize_layout(Vec::new()).unwrap();
    assert!(none.is_empty());
    assert_eq!(dim, Position::new(0, 0));
}

#[test]
fn layout_refuses_other_entities() {
    let lamp = Entity::new(1, "small-lamp".to_string(), Position::new(0, 0));
    assert!(matches!(normalize_layout(vec![lamp]), Err(BlueprintError::UnsupportedEntityType)));
    let odd = Entity::new(1, "arithmetic-combinator".to_string(), Position::new(0, 0)).with_direction(2);
    assert!(matches!(normalize_layout(vec![odd]), Err(BlueprintError::UnsupportedEntityDirection)));
}

#[test]
fn substation_requests() {
    let mut none = SubstationOccupied::new(Position::new(0, 0), None);
    assert_eq!(none.coverage(), 0);
    assert!(none.request(Position::new(10, 10)));
    assert_eq!(none.n_requests(), 0);
    let mut occ = SubstationOccupied::new(Position::new(0, 0), Some(Quality::Normal));
    assert_eq!(occ.coverage(), 18);
    assert_eq!(SubstationOccupied::new(Position::new(0, 0), Some(Quality::Legendary)).coverage(), 28);
    // A point on a substation's own tile is not free.
    assert!(!occ.request(Position::new(0, 0)));
    assert_eq!(occ.n_requests(), 1);
    // A point elsewhere in the same substation's reach is free and asks for nothing new.
    assert!(occ.request(Position::new(6, 6)));
    assert_eq!(occ.n_requests(), 1);
}

#[test]
fn numbers_as_text() {
    assert_eq!(decimal_string(0), "0");
    assert_eq!(decimal_string(1234567890), "1234567890");
    assert_eq!(half_string(7), "3.5");
    assert_eq!(half_string(-3), "-1.5");
    assert_eq!(half_string(-4), "-2");
    assert_eq!(half_string(0), "0");
}

#[test]
fn pairs_sort_lexicographically() {
    let mut v: Vec<(i64, i64)> = vec![(3, 1), (1, 2), (3, 0), (-1, 5), (1, 1)];
    sort_pairs(&mut v);
    assert_eq!(v, vec![(-1, 5), (1, 1), (1, 2), (3, 0), (3, 1)]);
}

fn old_args(gray_bits: u32, substations: &str) -> BlueprintArgs {
    BlueprintArgs {
        name: "test".to_string(),
        image_type: "gif".to_string(),
        time_comp_window: 0,
        last_frame: false,
        use_dlc: false,
        target_fps: 30,
        max_size: 100,
        substation_quality: substations.to_string(),
        gray_bits,
        samp_filter: "nearest".to_string(),
        green_wires: true,
        horizontal_wires: false,
        delta_comp: false,
        sort_signals: false,
    }
}

fn layout_entries(n: usize) -> Vec<SignalEntry> {
    (0..n).map(|i| SignalEntry { type_: "item".to_string(), name: format!("item-{i}") }).collect()
}

#[test]
fn column_layout_errors() {
    let a = old_args(0, "none");
    assert!(matches!(generate_blueprint(0, 30, 2, 2, &a, &layout_entries(2)), Err(BlueprintError::NoSampledFrames)));
    assert!(matches!(generate_blueprint(2, 30, 2, 2, &a, &Vec::new()), Err(BlueprintError::NotEnoughSignals)));
}

fn encode(b: giftorio::blueprint::models::Blueprint) -> Vec<Vec<Piece>> {
    let mut enc = BlueprintEncoder::new(b);
    let mut out: Vec<Vec<Piece>> = Vec::new();
    while !enc.done() {
        out.push(enc.next_chunk().unwrap());
    }
    assert!(matches!(enc.next_chunk(), Err(BlueprintError::AlreadyFinished)));
    out
}

fn layout_text(p: &Piece) -> &str {
    match p {
        Piece::Text(s) => s.as_str(),
        _ => panic!("not text"),
    }
}

#[test]
fn column_layout_colour_blueprint() {
    let a = old_args(0, "none");
    let mut b = generate_blueprint(2, 30, 2, 2, &a, &layout_entries(2)).unwrap();
    let red: Vec<u8> = vec![255, 0, 0, 255, 0, 0, 255, 0, 0, 255, 0, 0];
    b.add_frame(&Raster { width: 2, height: 2, data: red.clone() }, false).unwrap();
    b.add_frame(&Raster { width: 2, height: 2, data: red }, true).unwrap();
    let bp = b.into_blueprint();
    assert_eq!(bp.blueprint.label.as_deref(), Some("test"));
    assert_eq!(bp.blueprint.item, "blueprint");
    let icons = bp.blueprint.icons.as_ref().unwrap();
    assert_eq!(icons.len(), 1);
    assert_eq!(icons[0].signal.name, "decider-combinator");
    let ents = &bp.blueprint.entities;
    for (i, e) in ents.iter().enumerate() {
        assert_eq!(e.entity_number, i as u32 + 1);
    }
    // Each frame filled its own data combinator: ticks 0..2 and 2..4, every
    // pixel red.
    let mut windows: Vec<(i32, i32, usize)> = Vec::new();
    for e in ents {
        if let Some(giftorio::blueprint::models::ControlBehavior::Decider { decider_conditions: d }) =
            &e.control_behavior
        {
            if let (Some(c), Some(o)) = (&d.conditions, &d.outputs) {
                if c.len() == 2 && c[0].first_signal.as_ref().map(|s| s.name.as_str()) == Some("signal-T")
                    && !o.is_empty()
                    && o.iter().all(|x| x.constant == Some(0xFF0000))
                {
                    windows.push((c[0].constant.unwrap(), c[1].constant.unwrap(), o.len()));
                }
            }
        }
    }
    windows.sort();
    assert_eq!(windows, vec![(0, 2, 4), (2, 4, 4)]);
    let lamps = ents.iter().filter(|e| e.name == "small-lamp").count();
    assert_eq!(lamps, 4);
    let n_ents = ents.len();
    let n_wires = bp.blueprint.wires.as_ref().unwrap().len();
    let chunks = encode(bp);
    assert_eq!(layout_text(&chunks[0][0]), "{\"blueprint\":");
    assert_eq!(layout_text(&chunks[0][1]), "{\"entities\":[");
    let mut seen = 0;
    for c in &chunks[1..chunks.len() - 1] {
        for p in c {
            if let Piece::Entities(v) = p {
                assert!(v.len() <= 1000);
                seen += v.len();
            }
        }
    }
    assert_eq!(seen, n_ents);
    let last = &chunks[chunks.len() - 1];
    assert_eq!(layout_text(&last[0]), ",\"wires\":[");
    match &last[1] {
        Piece::Wires(w) => assert_eq!(w.len(), n_wires),
        _ => panic!("wires expected"),
    }
    assert_eq!(layout_text(&last[2]), "]}}");
}

#[test]
fn encoder_splits_entities_by_thousands() {
    let ents: Vec<Entity> = (1..=2500).map(|i| Entity::new(i, "small-lamp".to_string(), Position::new(0, 0))).collect();
    let bp = giftorio::blueprint::models::Blueprint {
        blueprint: giftorio::blueprint::models::BlueprintInner {
            icons: None,
            entities: ents,
            wires: None,
            item: "blueprint".to_string(),
            label: None,
            version: 1,
        },
    };
    let chunks = encode(bp);
    assert_eq!(chunks.len(), 1 + 3 + 1);
    assert!(matches!(&chunks[1][0], Piece::Entities(v) if v.len() == 1000 && v[0].entity_number == 1));
    assert_eq!(layout_text(&chunks[2][0]), ",");
    assert!(matches!(&chunks[3][1], Piece::Entities(v) if v.len() == 500 && v[499].entity_number == 2500));
    assert_eq!(layout_text(&chunks[3][2]), "]");
    assert_eq!(layout_text(&chunks[4][0]), ",\"wires\":null}}");
}

#[test]
fn lamps_skip_substation_tiles() {
    let sigs: Vec<giftorio::blueprint::models::Signal> = (0..4)
        .map(|i| giftorio::blueprint::models::Signal::new_virtual(format!("signal-{i}")))
        .collect();
    let occupied: Vec<(i32, i32)> = vec![(0, 0)];
    let (lamps, _wires, next, _top_right) =
        giftorio::blueprint::generate_lamps(&sigs, 2, 2, &occupied, 10, 0, 0, false, false);
    assert_eq!(lamps.len(), 3);
    assert_eq!(next, 13);
    for (k, l) in lamps.iter().enumerate() {
        assert_eq!(l.entity_number, 10 + k as u32);
        assert_ne!(l.position, Position::new(0, 0));
    }
    // Row by row, left to right: (1,0), (0,1), (1,1).
    assert_eq!(lamps[0].position, Position::new(2, 0));
    assert_eq!(lamps[1].position, Position::new(0, 2));
    assert_eq!(lamps[2].position, Position::new(2, 2));
}

#[test]
fn single_lamp_is_its_own_top_right() {
    let sigs = vec![giftorio::blueprint::models::Signal::new_virtual("signal-0".to_string())];
    let occupied: Vec<(i32, i32)> = Vec::new();
    let (lamps, wires, next, top_right) =
        giftorio::blueprint::generate_lamps(&sigs, 1, 1, &occupied, 7, 0, 0, false, false);
    assert_eq!(lamps.len(), 1);
    assert_eq!(lamps[0].entity_number, 7);
    assert!(wires.is_empty());
    assert_eq!(next, 8);
    assert_eq!(top_right, 7);
}
