use giftorio::image_utils::{animation_info, gif_info, webp_info};
use std::time::Duration;

/// A GIF with no global colour table, two frames with 5 cs and 7 cs delays.
fn two_frame_gif() -> Vec<u8> {
    let mut d: Vec<u8> = Vec::new();
    d.extend_from_slice(b"GIF89a");
    d.extend_from_slice(&[1, 0, 1, 0, 0x00, 0, 0]); // screen descriptor, no table
    for delay in [5u8, 7u8] {
        d.extend_from_slice(&[0x21, 0xF9, 4, 0, delay, 0, 0, 0]);
        d.extend_from_slice(&[0x2C, 0, 0, 0, 0, 1, 0, 1, 0, 0x00]);
        d.push(2); // LZW minimum code size
        d.extend_from_slice(&[2, 0x4C, 0x01, 0]); // one sub-block, then terminator
    }
    d.push(0x3B);
    d
}

#[test]
fn gif_frames_and_duration() {
    let info = gif_info(&two_frame_gif()).unwrap();
    assert_eq!(info.frames, 2);
    assert_eq!(info.duration, Duration::from_millis(120));
}

#[test]
fn gif_with_global_colour_table() {
    let mut d: Vec<u8> = Vec::new();
    d.extend_from_slice(b"GIF87a");
    d.extend_from_slice(&[1, 0, 1, 0, 0x80, 0, 0]); // table of 2 entries
    d.extend_from_slice(&[0, 0, 0, 255, 255, 255]);
    d.extend_from_slice(&[0x2C, 0, 0, 0, 0, 1, 0, 1, 0, 0x00, 2, 0]);
    d.push(0x3B);
    let info = gif_info(&d).unwrap();
    assert_eq!(info.frames, 1);
    assert_eq!(info.duration, Duration::from_millis(0));
}

#[test]
fn gif_other_extension_is_skipped() {
    let mut d: Vec<u8> = Vec::new();
    d.extend_from_slice(b"GIF89a");
    d.extend_from_slice(&[1, 0, 1, 0, 0x00, 0, 0]);
    d.extend_from_slice(&[0x21, 0xFF, 3, 1, 2, 3, 0]); // application extension
    d.push(0x3B);
    let info = gif_info(&d).unwrap();
    assert_eq!(info.frames, 0);
}

#[test]
fn gif_errors() {
    assert_eq!(gif_info(b"GIF89a").err(), Some("GIF data is too short"));
    assert_eq!(gif_info(b"GIF90a1234567").err(), Some("Invalid GIF header"));
    let mut d: Vec<u8> = Vec::new();
    d.extend_from_slice(b"GIF89a");
    d.extend_from_slice(&[1, 0, 1, 0, 0x81, 0, 0]);
    assert_eq!(gif_info(&d).err(), Some("Truncated global color table"));
    let mut d: Vec<u8> = Vec::new();
    d.extend_from_slice(b"GIF89a");
    d.extend_from_slice(&[1, 0, 1, 0, 0x00, 0, 0]);
    assert_eq!(gif_info(&d).err(), Some("Missing GIF trailer"));
    let mut e = d.clone();
    e.push(0x00);
    assert_eq!(gif_info(&e).err(), Some("Invalid GIF block introducer"));
    let mut e = d.clone();
    e.extend_from_slice(&[0x2C, 0, 0]);
    assert_eq!(gif_info(&e).err(), Some("Truncated image descriptor"));
    let mut e = d.clone();
    e.extend_from_slice(&[0x2C, 0, 0, 0, 0, 1, 0, 1, 0, 0x00]);
    assert_eq!(gif_info(&e).err(), Some("Missing LZW code size"));
    let mut e = d.clone();
    e.extend_from_slice(&[0x2C, 0, 0, 0, 0, 1, 0, 1, 0, 0x00, 2, 5, 1]);
    assert_eq!(gif_info(&e).err(), Some("Truncated GIF sub-block data"));
    let mut e = d.clone();
    e.extend_from_slice(&[0x2C, 0, 0, 0, 0, 1, 0, 1, 0, 0x00, 2]);
    assert_eq!(gif_info(&e).err(), Some("Truncated GIF sub-block"));
    let mut e = d.clone();
    e.extend_from_slice(&[0x2C, 0, 0, 0, 0, 1, 0, 1, 0, 0x81, 0]);
    assert_eq!(gif_info(&e).err(), Some("Truncated local color table"));
    let mut e = d.clone();
    e.push(0x21);
    assert_eq!(gif_info(&e).err(), Some("Truncated extension"));
    let mut e = d.clone();
    e.extend_from_slice(&[0x21, 0xF9, 4, 0]);
    assert_eq!(gif_info(&e).err(), Some("Truncated graphic control extension"));
    let mut e = d.clone();
    e.extend_from_slice(&[0x21, 0xF9, 3, 0, 0, 0, 0, 0]);
    assert_eq!(gif_info(&e).err(), Some("Invalid graphic control extension"));
}

/// A WebP of the given chunks.
fn webp(chunks: &[(&[u8; 4], Vec<u8>)]) -> Vec<u8> {
    let mut body: Vec<u8> = Vec::new();
    body.extend_from_slice(b"WEBP");
    for (t, data) in chunks {
        body.extend_from_slice(*t);
        body.extend_from_slice(&(data.len() as u32).to_le_bytes());
        body.extend_from_slice(data);
        if data.len() % 2 == 1 {
            body.push(0);
        }
    }
    let mut d: Vec<u8> = Vec::new();
    d.extend_from_slice(b"RIFF");
    d.extend_from_slice(&(body.len() as u32).to_le_bytes());
    d.extend_from_slice(&body);
    d
}

fn anmf(duration: u32) -> Vec<u8> {
    let mut f = vec![0u8; 16];
    f[12] = (duration & 0xff) as u8;
    f[13] = ((duration >> 8) & 0xff) as u8;
    f[14] = ((duration >> 16) & 0xff) as u8;
    f
}

#[test]
fn webp_frames_and_duration() {
    let d = webp(&[
        (b"VP8X", vec![0u8; 10]),
        (b"ANIM", vec![0u8; 6]),
        (b"ANMF", anmf(40)),
        (b"ANMF", anmf(0x010203)),
        (b"XTRA", vec![1u8; 3]),
    ]);
    let info = webp_info(&d).unwrap();
    assert_eq!(info.frames, 2);
    assert_eq!(info.duration, Duration::from_millis(40 + 0x010203));
}

#[test]
fn webp_errors() {
    assert_eq!(webp_info(b"RIFF").err(), Some("WebP data is too short"));
    assert_eq!(webp_info(b"RIFF\x04\0\0\0WEBQ").err(), Some("Invalid WebP header"));
    assert_eq!(webp_info(b"RIFF\x10\0\0\0WEBP").err(), Some("Truncated WebP"));
    let mut d = webp(&[(b"ANMF", anmf(1))]);
    d[16] = 0x20; // chunk claims more than there is
    assert_eq!(webp_info(&d).err(), Some("Truncated WebP chunk"));
    let d = webp(&[(b"ANMF", vec![0u8; 8])]);
    assert_eq!(webp_info(&d).err(), Some("Invalid ANMF chunk"));
}

#[test]
fn animation_info_dispatches_by_signature() {
    assert_eq!(animation_info(&two_frame_gif()).unwrap().frames, 2);
    let d = webp(&[(b"ANMF", anmf(25))]);
    let info = animation_info(&d).unwrap();
    assert_eq!(info.frames, 1);
    assert_eq!(info.duration, Duration::from_millis(25));
    assert_eq!(animation_info(b"\x89PNG\r\n\x1a\n0000").err(), Some("Unsupported image format"));
}

#[test]
fn gif_bytes_after_trailer_are_ignored() {
    let d = two_frame_gif();
    let mut e = d.clone();
    e.extend_from_slice(&[0x2C, 0xFF, 0x00, 0x13]);
    assert_eq!(gif_info(&e).unwrap().frames, gif_info(&d).unwrap().frames);
    assert_eq!(gif_info(&e).unwrap().duration, gif_info(&d).unwrap().duration);
}

#[test]
fn webp_bytes_after_riff_end_are_ignored() {
    let d = webp(&[(b"ANMF", anmf(40)), (b"ANMF", anmf(60))]);
    let mut e = d.clone();
    e.extend_from_slice(b"ANMF\x10\0\0\0");
    e.extend_from_slice(&anmf(1000));
    let a = webp_info(&d).unwrap();
    let b = webp_info(&e).unwrap();
    assert_eq!(b.frames, 2);
    assert_eq!(a.frames, b.frames);
    assert_eq!(a.duration, b.duration);
}
