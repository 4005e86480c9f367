use giftorio::blueprint::models::{Quality, Signal};
use giftorio::blueprint::signals::SignalEntry;
use giftorio::models::{
    BlueprintArgs, FlippedAxes, ImageMetadata, ImageRotation, Mode, OutputFormat, ResamplingFilter,
    SignalSorting,
};

fn entry(t: &str, n: &str) -> SignalEntry {
    SignalEntry { type_: t.to_string(), name: n.to_string() }
}

fn sig_args(use_dlc: bool, sorting: SignalSorting) -> BlueprintArgs {
    BlueprintArgs {
        name: None,
        comb_pos_json: String::new(),
        custom_height: None,
        custom_width: None,
        flipped_axes: FlippedAxes::Neither,
        grayscale_bits: 0,
        image_metadata: ImageMetadata { image_type: None, image_size: None },
        image_rotation: ImageRotation::Deg0,
        lamp_margin_y: 0,
        max_group_size: None,
        max_size: 100,
        mode: Mode::Full,
        output_format: OutputFormat::Json,
        prefer_green_wires: false,
        prefer_horizontal_wires: false,
        sampling_filter: ResamplingFilter::Nearest,
        signal_compression: None,
        signal_sorting: sorting,
        substation_quality: None,
        target_fps: 30,
        use_dlc,
    }
}

fn names(v: &[Signal]) -> Vec<(String, String, Option<Quality>)> {
    v.iter().map(|s| (s.type_.clone(), s.name.clone(), s.quality)).collect()
}

#[test]
fn every_quality_without_the_timer_signals() {
    let list = vec![entry("item", "iron-plate"), entry("virtual", "signal-T"), entry("fluid", "water")];
    let s = giftorio::blueprint::signals::get_signals_with_quality(&sig_args(false, SignalSorting::Unsorted), &list);
    let got = names(&s);
    assert_eq!(
        got,
        vec![
            ("item".to_string(), "iron-plate".to_string(), Some(Quality::Normal)),
            ("item".to_string(), "iron-plate".to_string(), Some(Quality::Unknown)),
            ("virtual".to_string(), "signal-T".to_string(), Some(Quality::Unknown)),
            ("fluid".to_string(), "water".to_string(), Some(Quality::Normal)),
            ("fluid".to_string(), "water".to_string(), Some(Quality::Unknown)),
        ]
    );
}

#[test]
fn dlc_gives_six_qualities() {
    let list = vec![entry("item", "copper-cable")];
    let s = giftorio::blueprint::signals::get_signals_with_quality(&sig_args(true, SignalSorting::Unsorted), &list);
    let qs: Vec<Option<Quality>> = s.iter().map(|x| x.quality).collect();
    assert_eq!(
        qs,
        vec![
            Some(Quality::Normal),
            Some(Quality::Uncommon),
            Some(Quality::Rare),
            Some(Quality::Epic),
            Some(Quality::Legendary),
            Some(Quality::Unknown),
        ]
    );
}

#[test]
fn compression_sorting_is_by_name_length_and_stable() {
    let list = vec![entry("item", "long-name"), entry("item", "ab"), entry("fluid", "cd")];
    let s = giftorio::blueprint::signals::get_signals_with_quality(&sig_args(false, SignalSorting::Compression), &list);
    let got: Vec<(String, Option<Quality>)> = s.iter().map(|x| (x.name.clone(), x.quality)).collect();
    assert_eq!(
        got,
        vec![
            ("ab".to_string(), Some(Quality::Normal)),
            ("ab".to_string(), Some(Quality::Unknown)),
            ("cd".to_string(), Some(Quality::Normal)),
            ("cd".to_string(), Some(Quality::Unknown)),
            ("long-name".to_string(), Some(Quality::Normal)),
            ("long-name".to_string(), Some(Quality::Unknown)),
        ]
    );
}

#[test]
fn json_sorting_puts_normal_items_first() {
    // Normal quality leaves its field out, and "item" is the default type.
    let list = vec![entry("fluid", "ab"), entry("item", "ab")];
    let s = giftorio::blueprint::signals::get_signals_with_quality(&sig_args(false, SignalSorting::Json), &list);
    let got: Vec<(String, Option<Quality>)> = s.iter().map(|x| (x.type_.clone(), x.quality)).collect();
    assert_eq!(
        got,
        vec![
            ("item".to_string(), Some(Quality::Normal)),
            ("fluid".to_string(), Some(Quality::Normal)),
            ("item".to_string(), Some(Quality::Unknown)),
            ("fluid".to_string(), Some(Quality::Unknown)),
        ]
    );
}

#[test]
fn column_layout_sorts_entries_by_text_length() {
    let list = vec![entry("item", "long-name"), entry("virtual", "signal-F"), entry("item", "ab")];
    let s = giftorio::signals::get_signals_with_quality(false, true, &list);
    let got = names(&s);
    assert_eq!(
        got,
        vec![
            ("item".to_string(), "ab".to_string(), Some(Quality::Normal)),
            ("item".to_string(), "ab".to_string(), Some(Quality::Unknown)),
            ("item".to_string(), "long-name".to_string(), Some(Quality::Normal)),
            ("item".to_string(), "long-name".to_string(), Some(Quality::Unknown)),
            ("virtual".to_string(), "signal-F".to_string(), Some(Quality::Unknown)),
        ]
    );
    let unsorted = giftorio::signals::get_signals_with_quality(true, false, &list);
    assert_eq!(unsorted.len(), 6 + 5 + 6);
    assert_eq!(unsorted[0].name, "long-name");
}
