use giftorio::image_processing::{
    expected_output_frames, oriented_dimensions, output_frame_count, ClockAction, FrameClock,
};
use giftorio::models::{ImageRotation, Mode};
use giftorio::streaming_writer::StreamingWriter;

#[test]
fn output_frames_include_the_first() {
    assert_eq!(expected_output_frames(0, 30), 1);
    assert_eq!(expected_output_frames(1000, 30), 31);
    assert_eq!(expected_output_frames(999, 1), 1);
    assert_eq!(expected_output_frames(2500, 12), 31);
}

#[test]
fn output_frame_count_by_mode() {
    let still = Mode::Static { const_cb: true, combs: false, timer: false };
    assert_eq!(output_frame_count(&still, 5000, 30), 1);
    assert_eq!(output_frame_count(&Mode::Full, 1000, 30), 31);
    // A frame rate of zero counts as one frame per second.
    assert_eq!(output_frame_count(&Mode::Full, 3000, 0), 4);
}

#[test]
fn quarter_turns_swap_dimensions() {
    assert_eq!(oriented_dimensions(4, 3, ImageRotation::Deg0), (4, 3));
    assert_eq!(oriented_dimensions(4, 3, ImageRotation::Deg90), (3, 4));
    assert_eq!(oriented_dimensions(4, 3, ImageRotation::Deg180), (4, 3));
    assert_eq!(oriented_dimensions(4, 3, ImageRotation::Deg270), (3, 4));
}

/// Runs the clock over frames of the given delays and returns, for each
/// output frame, the index of the input frame it shows.
fn sample(fps: u32, delays: &[u32]) -> Vec<usize> {
    let mut clock = FrameClock::new(fps);
    let mut shown: Vec<usize> = Vec::new();
    let mut next = 0usize;
    loop {
        match clock.decide() {
            ClockAction::EmitPrevious => shown.push(next - 1),
            ClockAction::Fetch => {
                if next == delays.len() {
                    return shown;
                }
                clock.fetched(delays[next]);
                next += 1;
            },
        }
    }
}

#[test]
fn clock_repeats_long_frames_and_drops_short_ones() {
    // 10 fps: outputs at 0, 100, 200, ... ms.
    assert_eq!(sample(10, &[250, 50, 50]), vec![0, 0, 0, 1]);
    assert_eq!(sample(10, &[250, 20, 20, 100]), vec![0, 0, 0, 3]);
    // A delay of zero stands for the default of 100 ms.
    assert_eq!(sample(10, &[0, 0]), vec![0, 0, 1]);
}

#[test]
fn clock_counts() {
    let mut clock = FrameClock::new(20);
    assert_eq!(clock.decide(), ClockAction::Fetch);
    clock.fetched(0);
    assert_eq!(clock.input_ms(), 100);
    assert_eq!(clock.frames_read(), 1);
    assert_eq!(clock.out_t_ms(), 0);
    assert_eq!(clock.decide(), ClockAction::EmitPrevious);
    assert_eq!(clock.samples(), 1);
    assert_eq!(clock.out_t_ms(), 50);
}

#[test]
fn streaming_writer_keeps_chunks_in_order() {
    let mut w = StreamingWriter::new(std::collections::VecDeque::from(vec![vec![9u8]]));
    assert_eq!(w.write(b"ab"), 2);
    assert_eq!(w.write(b""), 0);
    assert_eq!(w.pop_front(), Some(vec![9u8]));
    assert_eq!(w.pop_front(), Some(b"ab".to_vec()));
    assert_eq!(w.pop_front(), Some(Vec::new()));
    assert_eq!(w.pop_front(), None);
}
