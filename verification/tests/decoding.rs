use giftorio::image_processing::get_frames;

fn one_pixel_gif() -> Vec<u8> {
    vec![
        0x47, 0x49, 0x46, 0x38, 0x39, 0x61, 0x01, 0x00, 0x01, 0x00, 0x80, 0x00, 0x00, 0xFF, 0x00, 0x00,
        0x00, 0x00, 0x00, 0x21, 0xF9, 0x04, 0x00, 0x05, 0x00, 0x00, 0x00, 0x2C, 0x00, 0x00, 0x00, 0x00,
        0x01, 0x00, 0x01, 0x00, 0x00, 0x02, 0x02, 0x44, 0x01, 0x00, 0x3B,
    ]
}

#[test]
fn gif_is_decoded_with_its_frame_count_and_time() {
    let img = get_frames(&one_pixel_gif(), &"gif".to_string(), None, false).unwrap();
    assert_eq!((img.width, img.height), (1, 1));
    assert_eq!(img.frames.len(), 1);
    assert_eq!(img.frames[0].rgba.len(), 4);
    assert_eq!(img.info.frames, 1);
    assert_eq!(img.info.duration, std::time::Duration::from_millis(50));
}

#[test]
fn broken_gif_is_a_decode_error() {
    let mut d = one_pixel_gif();
    d.truncate(20);
    assert_eq!(get_frames(&d, &"gif".to_string(), None, false).err(), Some("Decode error"));
}

#[test]
fn raw_image_is_one_frame() {
    let data = vec![1u8; 2 * 3 * 4];
    let img = get_frames(&data, &"png".to_string(), Some((2, 3)), true).unwrap();
    assert_eq!((img.width, img.height), (2, 3));
    assert_eq!(img.frames.len(), 1);
    assert_eq!(img.frames[0].rgba, data);
    assert_eq!(img.frames[0].delay_ms, 0);
    assert_eq!(img.info.frames, 1);
    assert_eq!(img.info.duration, std::time::Duration::from_millis(1000));
    let still = get_frames(&data, &"png".to_string(), Some((2, 3)), false).unwrap();
    assert_eq!(still.info.duration, std::time::Duration::from_millis(0));
}

#[test]
fn raw_image_too_short_is_refused() {
    let data = vec![1u8; 2 * 3 * 4 - 1];
    assert_eq!(
        get_frames(&data, &"png".to_string(), Some((2, 3)), false).err(),
        Some("buffer length must be width * height * 4")
    );
}
