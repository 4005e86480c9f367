//! Byte-level scanners that count the frames and add up the frame delays of
//! animated GIF and WebP files without decoding any pixel data.
use std::time::Duration;
use vstd::prelude::*;

verus! {

/// Number of frames and total play time of an animation.
pub struct AnimationInfo {
    pub frames: u32,
    pub duration: Duration,
}

/// The `Duration` that `std::time::Duration::from_millis` builds for `ms`.
pub uninterp spec fn duration_from_millis(ms: u64) -> Duration;

/// Trusted: calls `std::time::Duration::from_millis`. The contract only names
/// the result and claims that the call is a function of `ms` alone; that the
/// duration is `ms` milliseconds long is left unsaid, as `Duration` has no
/// view here.
#[verifier::external_body]
pub(crate) fn millis_to_duration(ms: u64) -> (d: Duration)
    ensures
        d == duration_from_millis(ms),
{
    Duration::from_millis(ms)
}

// ---------------------------------------------------------------------------
// GIF
// ---------------------------------------------------------------------------

/// The six signature bytes `GIF87a` or `GIF89a`.
pub open spec fn is_gif_header(data: Seq<u8>) -> bool {
    &&& data.len() >= 6
    &&& data[0] == 0x47u8 && data[1] == 0x49u8 && data[2] == 0x46u8
    &&& data[3] == 0x38u8 && (data[4] == 0x37u8 || data[4] == 0x39u8)
    &&& data[5] == 0x61u8
}

/// Size in bytes of a colour table announced by a packed field:
/// three bytes per entry, `2^(n+1)` entries for the low three bits `n`.
pub open spec fn color_table_size(packed: u8) -> int {
    3 * pow2_small(((packed & 7u8) + 1) as nat)
}

/// Powers of two up to 2^8, written out.
pub open spec fn pow2_small(n: nat) -> int {
    if n == 0 { 1 }
    else if n == 1 { 2 }
    else if n == 2 { 4 }
    else if n == 3 { 8 }
    else if n == 4 { 16 }
    else if n == 5 { 32 }
    else if n == 6 { 64 }
    else if n == 7 { 128 }
    else { 256 }
}

/// Skips a chain of data sub-blocks starting at `pos` (a length byte, then
/// that many bytes, until a zero length byte). Gives the position after the
/// terminating zero byte.
pub open spec fn gif_skip_sub_blocks(data: Seq<u8>, pos: int) -> Result<int, &'static str>
    decreases data.len() - pos,
{
    if pos < 0 || pos >= data.len() {
        Err("Truncated GIF sub-block")
    } else {
        let size = data[pos] as int;
        let p = pos + 1;
        if size == 0 {
            Ok(p)
        } else if data.len() - p < size {
            Err("Truncated GIF sub-block data")
        } else {
            gif_skip_sub_blocks(data, p + size)
        }
    }
}

/// The little-endian 16-bit delay stored in a graphic control extension
/// whose block-size byte is at `p`.
pub open spec fn gce_delay(data: Seq<u8>, p: int) -> int {
    data[p + 2] as int + 256 * data[p + 3] as int
}

/// Walks the GIF blocks from `pos`, with `frames` image descriptors seen so
/// far, `dur` centiseconds added up so far and `pending` the delay of the last
/// graphic control extension, not yet given to a frame.
pub open spec fn gif_blocks(data: Seq<u8>, pos: int, frames: int, dur: int, pending: int)
    -> Result<(int, int), &'static str>
    decreases data.len() - pos,
{
    if pos < 0 || pos >= data.len() {
        Err("Missing GIF trailer")
    } else {
        let b = data[pos];
        let p = pos + 1;
        if b == 0x2Cu8 {
            if frames + 1 > u32::MAX {
                Err("Too many GIF frames")
            } else if data.len() - p < 9 {
                Err("Truncated image descriptor")
            } else {
                let packed = data[p + 8];
                let p2 = p + 9;
                let has_table = packed & 0x80u8 != 0;
                if has_table && data.len() - p2 < color_table_size(packed) {
                    Err("Truncated local color table")
                } else {
                    let p3 = if has_table { p2 + color_table_size(packed) } else { p2 };
                    if p3 >= data.len() {
                        Err("Missing LZW code size")
                    } else {
                        match gif_skip_sub_blocks(data, p3 + 1) {
                            Err(e) => Err(e),
                            Ok(p4) => {
                                proof {
                                    lemma_skip_sub_blocks_advances(data, p3 + 1);
                                }
                                gif_blocks(data, p4, frames + 1, dur + pending, 0)
                            },
                        }
                    }
                }
            }
        } else if b == 0x21u8 {
            if p >= data.len() {
                Err("Truncated extension")
            } else {
                let label = data[p];
                let p2 = p + 1;
                if label == 0xF9u8 {
                    if data.len() - p2 < 6 {
                        Err("Truncated graphic control extension")
                    } else if data[p2] != 4u8 {
                        Err("Invalid graphic control extension")
                    } else {
                        gif_blocks(data, p2 + 6, frames, dur, gce_delay(data, p2))
                    }
                } else {
                    match gif_skip_sub_blocks(data, p2) {
                        Err(e) => Err(e),
                        Ok(p3) => {
                            proof {
                                lemma_skip_sub_blocks_advances(data, p2);
                            }
                            gif_blocks(data, p3, frames, dur, pending)
                        },
                    }
                }
            }
        } else if b == 0x3Bu8 {
            Ok((frames, dur))
        } else {
            Err("Invalid GIF block introducer")
        }
    }
}

/// What a GIF scan gives: the number of frames and the total delay in
/// centiseconds, or the message of the first problem met.
pub open spec fn spec_gif_info(data: Seq<u8>) -> Result<(int, int), &'static str> {
    if data.len() < 13 {
        Err("GIF data is too short")
    } else if !is_gif_header(data) {
        Err("Invalid GIF header")
    } else {
        let packed = data[10];
        if packed & 0x80u8 != 0 {
            if data.len() - 13 < color_table_size(packed) {
                Err("Truncated global color table")
            } else {
                gif_blocks(data, 13 + color_table_size(packed), 0, 0, 0)
            }
        } else {
            gif_blocks(data, 13, 0, 0, 0)
        }
    }
}

/// A chain of sub-blocks that is skipped ends strictly after its start and
/// within the data.
pub proof fn lemma_skip_sub_blocks_advances(data: Seq<u8>, pos: int)
    ensures
        gif_skip_sub_blocks(data, pos) matches Ok(q) ==> pos < q <= data.len(),
    decreases data.len() - pos,
{
    if 0 <= pos < data.len() {
        let size = data[pos] as int;
        if size != 0 && data.len() - (pos + 1) >= size {
            lemma_skip_sub_blocks_advances(data, pos + 1 + size);
        }
    }
}

proof fn lemma_color_table_size(packed: u8)
    ensures
        6 <= color_table_size(packed) <= 768,
        color_table_size(packed) == (3usize << (((packed & 7u8) + 1u8) as usize)) as int,
{
    let k = packed & 7u8;
    assert(k <= 7) by (bit_vector)
        requires k == packed & 7u8;
    assert(k == 0 ==> (3usize << ((k + 1u8) as usize)) == 6) by (bit_vector);
    assert(k == 1 ==> (3usize << ((k + 1u8) as usize)) == 12) by (bit_vector);
    assert(k == 2 ==> (3usize << ((k + 1u8) as usize)) == 24) by (bit_vector);
    assert(k == 3 ==> (3usize << ((k + 1u8) as usize)) == 48) by (bit_vector);
    assert(k == 4 ==> (3usize << ((k + 1u8) as usize)) == 96) by (bit_vector);
    assert(k == 5 ==> (3usize << ((k + 1u8) as usize)) == 192) by (bit_vector);
    assert(k == 6 ==> (3usize << ((k + 1u8) as usize)) == 384) by (bit_vector);
    assert(k == 7 ==> (3usize << ((k + 1u8) as usize)) == 768) by (bit_vector);
}

/// Size of the colour table announced by `packed`.
fn table_size(packed: u8) -> (size: usize)
    ensures
        size as int == color_table_size(packed),
        size <= 768,
{
    proof {
        lemma_color_table_size(packed);
    }
    let k = packed & 0x07;
    assert(k <= 7) by (bit_vector)
        requires k == packed & 7u8;
    3usize << ((k + 1) as usize)
}

/// Skips the data sub-blocks that start at `*pos`, leaving `*pos` after the
/// terminating zero-length block.
fn skip_sub_blocks(data: &[u8], pos: &mut usize) -> (r: Result<(), &'static str>)
    requires
        *old(pos) <= data.len(),
    ensures
        match gif_skip_sub_blocks(data@, *old(pos) as int) {
            Ok(q) => r is Ok && *final(pos) as int == q,
            Err(e) => r == Err::<(), &'static str>(e),
        },
{
    let ghost start = *pos as int;
    loop
        invariant
            start == *old(pos) as int,
            start <= *pos <= data.len(),
            gif_skip_sub_blocks(data@, *pos as int) == gif_skip_sub_blocks(data@, start),
        decreases data.len() - *pos,
    {
        if *pos >= data.len() {
            return Err("Truncated GIF sub-block");
        }
        let size = data[*pos];
        *pos += 1;
        if size == 0 {
            return Ok(());
        }
        if data.len() - *pos < size as usize {
            return Err("Truncated GIF sub-block data");
        }
        *pos += size as usize;
    }
}

/// (Optimised) Finds the number of frames and total duration of a GIF.
///
/// Frame delays are stored in centiseconds; a delay counts for the next image
/// descriptor. Scanning stops at the trailer byte.
pub fn gif_info(data: &[u8]) -> (r: Result<AnimationInfo, &'static str>)
    ensures
        match spec_gif_info(data@) {
            Ok((frames, cs)) => r matches Ok(info) && info.frames == frames
                && info.duration == duration_from_millis((cs * 10) as u64),
            Err(e) => r matches Err(msg) && msg == e,
        },
{
    if data.len() < 13 {
        return Err("GIF data is too short");
    }
    let is_header = data[0] == 0x47 && data[1] == 0x49 && data[2] == 0x46 && data[3] == 0x38
        && (data[4] == 0x37 || data[4] == 0x39) && data[5] == 0x61;
    if !is_header {
        return Err("Invalid GIF header");
    }

    let packed = data[10];
    let mut pos: usize = 13;

    // Global Color Table
    if packed & 0x80 != 0 {
        let size = table_size(packed);
        if data.len() - pos < size {
            return Err("Truncated global color table");
        }
        pos += size;
    }
    let ghost start = pos as int;

    let mut frames: u32 = 0;
    let mut duration_cs: u64 = 0;
    // Delay belonging to the next image descriptor.
    let mut pending_delay_cs: u64 = 0;

    loop
        invariant
            start == 13 || start == 13 + color_table_size(data@[10]),
            spec_gif_info(data@) == gif_blocks(data@, start, 0, 0, 0),
            pos <= data.len(),
            duration_cs <= frames as int * 65535,
            pending_delay_cs <= 65535,
            gif_blocks(data@, pos as int, frames as int, duration_cs as int, pending_delay_cs as int)
                == gif_blocks(data@, start, 0, 0, 0),
        decreases data.len() - pos,
    {
        if pos >= data.len() {
            return Err("Missing GIF trailer");
        }
        let b = data[pos];
        pos += 1;

        if b == 0x2C {
            // Image Descriptor = one frame
            if frames == u32::MAX {
                return Err("Too many GIF frames");
            }
            frames += 1;
            if data.len() - pos < 9 {
                return Err("Truncated image descriptor");
            }
            let packed = data[pos + 8];
            pos += 9;

            // Local Color Table
            if packed & 0x80 != 0 {
                let size = table_size(packed);
                if data.len() - pos < size {
                    return Err("Truncated local color table");
                }
                pos += size;
            }

            // LZW minimum code size
            if pos >= data.len() {
                return Err("Missing LZW code size");
            }
            pos += 1;

            // LZW data sub-blocks
            let ghost before = pos as int;
            proof {
                lemma_skip_sub_blocks_advances(data@, before);
            }
            match skip_sub_blocks(data, &mut pos) {
                Err(e) => {
                    return Err(e);
                },
                Ok(()) => {},
            }
            duration_cs += pending_delay_cs;
            pending_delay_cs = 0;
        } else if b == 0x21 {
            // Extension block
            if pos >= data.len() {
                return Err("Truncated extension");
            }
            let label = data[pos];
            pos += 1;

            if label == 0xF9 {
                // Graphic Control Extension:
                // 21 F9 04 [packed] [delay lo] [delay hi] [transparent] 00
                if data.len() - pos < 6 {
                    return Err("Truncated graphic control extension");
                }
                let block_size = data[pos];
                if block_size != 4 {
                    return Err("Invalid graphic control extension");
                }
                pending_delay_cs = data[pos + 2] as u64 + 256 * (data[pos + 3] as u64);
                pos += 6;
            } else {
                // Other extension data
                let ghost before = pos as int;
                proof {
                    lemma_skip_sub_blocks_advances(data@, before);
                }
                match skip_sub_blocks(data, &mut pos) {
                    Err(e) => {
                        return Err(e);
                    },
                    Ok(()) => {},
                }
            }
        } else if b == 0x3B {
            let d = millis_to_duration(duration_cs * 10);
            return Ok(AnimationInfo { frames, duration: d });
        } else {
            return Err("Invalid GIF block introducer");
        }
    }
}


// ---------------------------------------------------------------------------
// WebP
// ---------------------------------------------------------------------------

/// `RIFF` at the start and `WEBP` at byte 8.
pub open spec fn is_webp_header(data: Seq<u8>) -> bool {
    &&& data.len() >= 12
    &&& data[0] == 0x52u8 && data[1] == 0x49u8 && data[2] == 0x46u8 && data[3] == 0x46u8
    &&& data[8] == 0x57u8 && data[9] == 0x45u8 && data[10] == 0x42u8 && data[11] == 0x50u8
}

/// Little-endian 32-bit value at `p`.
pub open spec fn le_u32_at(data: Seq<u8>, p: int) -> int {
    data[p] as int + 256 * data[p + 1] as int + 65536 * data[p + 2] as int
        + 16777216 * data[p + 3] as int
}

/// Little-endian 24-bit value at `p`.
pub open spec fn le_u24_at(data: Seq<u8>, p: int) -> int {
    data[p] as int + 256 * data[p + 1] as int + 65536 * data[p + 2] as int
}

/// The chunk at `pos` is an animation frame (`ANMF`).
pub open spec fn is_anmf_at(data: Seq<u8>, pos: int) -> bool {
    data[pos] == 0x41u8 && data[pos + 1] == 0x4Eu8 && data[pos + 2] == 0x4Du8
        && data[pos + 3] == 0x46u8
}

/// Walks the RIFF chunks from `pos` up to `end`, with `frames` animation
/// frames counted and `dur` milliseconds added up so far.
pub open spec fn webp_chunks(data: Seq<u8>, end: int, pos: int, frames: int, dur: int)
    -> Result<(int, int), &'static str>
    decreases end + 1 - pos,
{
    if end - pos < 8 {
        Ok((frames, dur))
    } else {
        let size = le_u32_at(data, pos + 4);
        let p = pos + 8;
        if size > end - p {
            Err("Truncated WebP chunk")
        } else if is_anmf_at(data, pos) && size < 16 {
            Err("Invalid ANMF chunk")
        } else if is_anmf_at(data, pos) && frames + 1 > u32::MAX {
            Err("Too many WebP frames")
        } else {
            let frames2 = if is_anmf_at(data, pos) { frames + 1 } else { frames };
            let dur2 = if is_anmf_at(data, pos) { dur + le_u24_at(data, p + 12) } else { dur };
            let p2 = if size % 2 == 1 { p + size + 1 } else { p + size };
            webp_chunks(data, end, p2, frames2, dur2)
        }
    }
}

/// What a WebP scan gives: the number of animation frames and their total
/// duration in milliseconds, or the message of the first problem met.
pub open spec fn spec_webp_info(data: Seq<u8>) -> Result<(int, int), &'static str> {
    if data.len() < 12 {
        Err("WebP data is too short")
    } else if !is_webp_header(data) {
        Err("Invalid WebP header")
    } else if 8 + le_u32_at(data, 4) > usize::MAX {
        Err("Invalid RIFF size")
    } else if 8 + le_u32_at(data, 4) > data.len() {
        Err("Truncated WebP")
    } else {
        webp_chunks(data, 8 + le_u32_at(data, 4), 12, 0, 0)
    }
}

fn read_le_u32(data: &[u8], p: usize) -> (v: usize)
    requires
        p + 4 <= data.len(),
    ensures
        v as int == le_u32_at(data@, p as int),
{
    let v: u64 = data[p] as u64 + 256 * (data[p + 1] as u64) + 65536 * (data[p + 2] as u64)
        + 16777216 * (data[p + 3] as u64);
    proof {
        assert(v <= u32::MAX);
    }
    v as u32 as usize
}

/// (Optimised) Finds the number of frames and total duration of an animated WebP.
///
/// Only `ANMF` chunks count as frames; their 24-bit duration field is added up.
pub fn webp_info(data: &[u8]) -> (r: Result<AnimationInfo, &'static str>)
    ensures
        match spec_webp_info(data@) {
            Ok((frames, ms)) => r matches Ok(info) && info.frames == frames
                && info.duration == duration_from_millis(ms as u64),
            Err(e) => r matches Err(msg) && msg == e,
        },
{
    if data.len() < 12 {
        return Err("WebP data is too short");
    }
    let is_header = data[0] == 0x52 && data[1] == 0x49 && data[2] == 0x46 && data[3] == 0x46
        && data[8] == 0x57 && data[9] == 0x45 && data[10] == 0x42 && data[11] == 0x50;
    if !is_header {
        return Err("Invalid WebP header");
    }
    let riff_size = read_le_u32(data, 4);
    let end = match 8usize.checked_add(riff_size) {
        Some(e) => e,
        None => {
            return Err("Invalid RIFF size");
        },
    };
    if end > data.len() {
        return Err("Truncated WebP");
    }

    let mut pos: usize = 12;
    let mut frames: u32 = 0;
    let mut duration_ms: u64 = 0;

    while pos <= end && end - pos >= 8
        invariant
            end <= data.len(),
            end as int == 8 + le_u32_at(data@, 4),
            spec_webp_info(data@) == webp_chunks(data@, end as int, 12, 0, 0),
            12 <= pos,
            pos <= end + 1 || pos == 12,
            duration_ms <= frames as int * 16777215,
            webp_chunks(data@, end as int, pos as int, frames as int, duration_ms as int)
                == webp_chunks(data@, end as int, 12, 0, 0),
        decreases end + 1 - pos,
    {
        let ghost pos0 = pos as int;
        let ghost frames0 = frames as int;
        let ghost dur0 = duration_ms as int;
        let chunk_size = read_le_u32(data, pos + 4);
        let is_anmf = data[pos] == 0x41 && data[pos + 1] == 0x4E && data[pos + 2] == 0x4D
            && data[pos + 3] == 0x46;
        pos += 8;
        if chunk_size > end - pos {
            return Err("Truncated WebP chunk");
        }
        if is_anmf {
            if chunk_size < 16 {
                return Err("Invalid ANMF chunk");
            }
            if frames == u32::MAX {
                return Err("Too many WebP frames");
            }
            frames += 1;
            // ANMF: bytes 12..15 hold the frame duration (24-bit little endian)
            let frame_duration_ms = data[pos + 12] as u64 + 256 * (data[pos + 13] as u64)
                + 65536 * (data[pos + 14] as u64);
            duration_ms += frame_duration_ms;
        }
        pos += chunk_size;
        // RIFF chunks are padded to an even size. (At the very end the padding
        // byte would only step past `end`, which stops the scan all the same.)
        if chunk_size % 2 == 1 && pos < end {
            pos += 1;
        }
        proof {
            let p2 = if chunk_size % 2 == 1 { pos0 + 8 + chunk_size + 1 } else { pos0 + 8 + chunk_size };
            assert(webp_chunks(data@, end as int, pos0, frames0, dur0)
                == webp_chunks(data@, end as int, p2, frames as int, duration_ms as int));
            if p2 != pos {
                assert(webp_chunks(data@, end as int, p2, frames as int, duration_ms as int)
                    == Ok::<(int, int), &'static str>((frames as int, duration_ms as int)));
            }
        }
    }
    let d = millis_to_duration(duration_ms);
    Ok(AnimationInfo { frames, duration: d })
}

/// Scans `data` as a GIF or as an animated WebP, by its signature bytes.
pub fn animation_info(data: &[u8]) -> (r: Result<AnimationInfo, &'static str>)
    ensures
        is_gif_header(data@) ==> (match spec_gif_info(data@) {
            Ok((frames, cs)) => r matches Ok(info) && info.frames == frames
                && info.duration == duration_from_millis((cs * 10) as u64),
            Err(e) => r matches Err(msg) && msg == e,
        }),
        !is_gif_header(data@) && is_webp_header(data@) ==> (match spec_webp_info(data@) {
            Ok((frames, ms)) => r matches Ok(info) && info.frames == frames
                && info.duration == duration_from_millis(ms as u64),
            Err(e) => r matches Err(msg) && msg == e,
        }),
        !is_gif_header(data@) && !is_webp_header(data@) ==> (r matches Err(msg)
            && msg == "Unsupported image format"),
{
    if data.len() >= 6 && data[0] == 0x47 && data[1] == 0x49 && data[2] == 0x46 && data[3] == 0x38
        && (data[4] == 0x37 || data[4] == 0x39) && data[5] == 0x61 {
        gif_info(data)
    } else if data.len() >= 12 && data[0] == 0x52 && data[1] == 0x49 && data[2] == 0x46
        && data[3] == 0x46 && data[8] == 0x57 && data[9] == 0x45 && data[10] == 0x42
        && data[11] == 0x50 {
        webp_info(data)
    } else {
        Err("Unsupported image format")
    }
}


/// Skipping sub-blocks that end within `d` reads nothing after `d`.
proof fn lemma_skip_sub_blocks_prefix(d: Seq<u8>, e: Seq<u8>, pos: int)
    requires
        gif_skip_sub_blocks(d, pos) is Ok,
    ensures
        gif_skip_sub_blocks(d + e, pos) == gif_skip_sub_blocks(d, pos),
    decreases d.len() - pos,
{
    let de = d + e;
    assert(de[pos] == d[pos]);
    let size = d[pos] as int;
    if size != 0 {
        lemma_skip_sub_blocks_prefix(d, e, pos + 1 + size);
    }
}

/// A block walk that reaches the trailer within `d` reads nothing after
/// `d`.
proof fn lemma_gif_blocks_prefix(d: Seq<u8>, e: Seq<u8>, pos: int, frames: int, dur: int, pending: int)
    requires
        gif_blocks(d, pos, frames, dur, pending) is Ok,
    ensures
        gif_blocks(d + e, pos, frames, dur, pending) == gif_blocks(d, pos, frames, dur, pending),
    decreases d.len() - pos,
{
    let de = d + e;
    let b = d[pos];
    let p = pos + 1;
    assert(de[pos] == b);
    if b == 0x2Cu8 {
        let packed = d[p + 8];
        assert(de[p + 8] == packed);
        let p2 = p + 9;
        let has_table = packed & 0x80u8 != 0;
        let p3 = if has_table { p2 + color_table_size(packed) } else { p2 };
        lemma_skip_sub_blocks_prefix(d, e, p3 + 1);
        lemma_skip_sub_blocks_advances(d, p3 + 1);
        let p4 = gif_skip_sub_blocks(d, p3 + 1)->Ok_0;
        lemma_gif_blocks_prefix(d, e, p4, frames + 1, dur + pending, 0);
    } else if b == 0x21u8 {
        let label = d[p];
        assert(de[p] == label);
        let p2 = p + 1;
        if label == 0xF9u8 {
            assert(de[p2] == d[p2]);
            assert(de[p2 + 2] == d[p2 + 2]);
            assert(de[p2 + 3] == d[p2 + 3]);
            assert(gce_delay(de, p2) == gce_delay(d, p2));
            lemma_gif_blocks_prefix(d, e, p2 + 6, frames, dur, gce_delay(d, p2));
        } else {
            lemma_skip_sub_blocks_prefix(d, e, p2);
            lemma_skip_sub_blocks_advances(d, p2);
            let p3 = gif_skip_sub_blocks(d, p2)->Ok_0;
            lemma_gif_blocks_prefix(d, e, p3, frames, dur, pending);
        }
    }
}

/// Bytes after a GIF that reads through to its trailer do not change what
/// is read of it: nothing after the trailer is looked at.
pub proof fn lemma_gif_info_ignores_trailing(d: Seq<u8>, e: Seq<u8>)
    requires
        spec_gif_info(d) is Ok,
    ensures
        spec_gif_info(d + e) == spec_gif_info(d),
{
    let de = d + e;
    assert forall|i: int| 0 <= i < 13 implies de[i] == d[i] by {}
    assert(is_gif_header(de) == is_gif_header(d));
    let packed = d[10];
    if packed & 0x80u8 != 0 {
        lemma_gif_blocks_prefix(d, e, 13 + color_table_size(packed), 0, 0, 0);
    } else {
        lemma_gif_blocks_prefix(d, e, 13, 0, 0, 0);
    }
}

/// A chunk walk that stops at `end`, within `d`, reads nothing after `d`.
proof fn lemma_webp_chunks_prefix(d: Seq<u8>, e: Seq<u8>, end: int, pos: int, frames: int, dur: int)
    requires
        end <= d.len(),
        0 <= pos,
    ensures
        webp_chunks(d + e, end, pos, frames, dur) == webp_chunks(d, end, pos, frames, dur),
    decreases end + 1 - pos,
{
    let de = d + e;
    if end - pos >= 8 {
        assert forall|i: int| pos <= i < pos + 8 implies de[i] == d[i] by {}
        assert(le_u32_at(de, pos + 4) == le_u32_at(d, pos + 4));
        assert(is_anmf_at(de, pos) == is_anmf_at(d, pos));
        let size = le_u32_at(d, pos + 4);
        let p = pos + 8;
        if size <= end - p {
            if is_anmf_at(d, pos) && size >= 16 {
                assert forall|i: int| p + 12 <= i < p + 15 implies de[i] == d[i] by {}
                assert(le_u24_at(de, p + 12) == le_u24_at(d, p + 12));
            }
            let frames2 = if is_anmf_at(d, pos) { frames + 1 } else { frames };
            let dur2 = if is_anmf_at(d, pos) { dur + le_u24_at(d, p + 12) } else { dur };
            let p2 = if size % 2 == 1 { p + size + 1 } else { p + size };
            lemma_webp_chunks_prefix(d, e, end, p2, frames2, dur2);
        }
    }
}

/// Bytes after the end of a WebP's RIFF container do not change what is
/// read of it: nothing past the container's end is looked at.
pub proof fn lemma_webp_info_ignores_trailing(d: Seq<u8>, e: Seq<u8>)
    requires
        d.len() >= 12,
        is_webp_header(d),
        8 + le_u32_at(d, 4) <= d.len(),
    ensures
        spec_webp_info(d + e) == spec_webp_info(d),
{
    let de = d + e;
    assert forall|i: int| 0 <= i < 12 implies de[i] == d[i] by {}
    assert(is_webp_header(de));
    assert(le_u32_at(de, 4) == le_u32_at(d, 4));
    lemma_webp_chunks_prefix(d, e, 8 + le_u32_at(d, 4), 12, 0, 0);
}

/// Skipping a chain of sub-blocks goes from each sub-block to the next: a
/// zero length byte ends the chain just after it, and a sub-block of `s > 0`
/// bytes is passed over whole, the chain going on at the length byte after
/// it.
pub proof fn lemma_skip_sub_blocks_steps(data: Seq<u8>, pos: int)
    requires
        0 <= pos < data.len(),
    ensures
        data[pos] == 0 ==> gif_skip_sub_blocks(data, pos) == Ok::<int, &'static str>(pos + 1),
        data[pos] != 0 && pos + 1 + data[pos] <= data.len() ==> gif_skip_sub_blocks(data, pos)
            == gif_skip_sub_blocks(data, pos + 1 + data[pos]),
{
}

/// A chain of sub-blocks that is skipped ends just after a zero length byte
/// and reads no byte past it; in particular a chain of sub-blocks of sizes
/// `s1, ..., sk` (all non-zero) then a zero byte, starting at `pos`, ends at
/// `pos + k + 1 + s1 + ... + sk`.
pub proof fn lemma_skip_sub_blocks_chain(sizes: Seq<u8>, data: Seq<u8>, pos: int)
    requires
        0 <= pos,
        forall|i: int| 0 <= i < sizes.len() ==> #[trigger] sizes[i] != 0,
        chain_end(sizes, pos) < data.len(),
        forall|i: int| 0 <= i < sizes.len() ==> data[#[trigger] chain_start(sizes, pos, i)] == sizes[i],
        data[chain_end(sizes, pos)] == 0,
    ensures
        gif_skip_sub_blocks(data, pos) == Ok::<int, &'static str>(chain_end(sizes, pos) + 1),
    decreases sizes.len(),
{
    if sizes.len() == 0 {
    } else {
        let rest = sizes.drop_first();
        let next = pos + 1 + sizes[0];
        assert forall|i: int| 0 <= i < rest.len() implies chain_start(rest, next, i) == chain_start(sizes, pos, i + 1)
            by {
            lemma_chain_start_shift(sizes, pos, i + 1);
        }
        assert(chain_end(rest, next) == chain_end(sizes, pos)) by {
            lemma_chain_start_shift(sizes, pos, sizes.len() as int);
        }
        assert(chain_start(sizes, pos, 0) == pos);
        assert forall|i: int| 0 <= i < rest.len() implies data[#[trigger] chain_start(rest, next, i)] == rest[i] by {
            assert(rest[i] == sizes[i + 1]);
            assert(data[chain_start(sizes, pos, i + 1)] == sizes[i + 1]);
        }
        assert forall|i: int| 0 <= i < rest.len() implies #[trigger] rest[i] != 0 by {
            assert(rest[i] == sizes[i + 1]);
        }
        lemma_chain_start_mono(sizes, pos, sizes.len() as int);
        lemma_skip_sub_blocks_chain(rest, data, next);
    }
}

/// Where the `i`-th length byte of a chain of sub-blocks of sizes `sizes`
/// starting at `pos` stands: after `i` length bytes and the first `i` sizes.
pub open spec fn chain_start(sizes: Seq<u8>, pos: int, i: int) -> int
    decreases i,
{
    if i <= 0 {
        pos
    } else {
        chain_start(sizes, pos, i - 1) + 1 + sizes[i - 1]
    }
}

/// Where the zero byte that ends the chain stands.
pub open spec fn chain_end(sizes: Seq<u8>, pos: int) -> int {
    chain_start(sizes, pos, sizes.len() as int)
}

proof fn lemma_chain_start_shift(sizes: Seq<u8>, pos: int, i: int)
    requires
        1 <= i <= sizes.len(),
    ensures
        chain_start(sizes.drop_first(), pos + 1 + sizes[0], i - 1) == chain_start(sizes, pos, i),
    decreases i,
{
    if i > 1 {
        lemma_chain_start_shift(sizes, pos, i - 1);
        assert(sizes.drop_first()[i - 2] == sizes[i - 1]);
    } else {
        assert(chain_start(sizes, pos, 0) == pos);
        assert(chain_start(sizes.drop_first(), pos + 1 + sizes[0], 0) == pos + 1 + sizes[0]);
    }
}

proof fn lemma_chain_start_mono(sizes: Seq<u8>, pos: int, i: int)
    requires
        0 <= i <= sizes.len(),
    ensures
        chain_start(sizes, pos, i) >= pos + i,
        i >= 1 ==> chain_start(sizes, pos, i) >= pos + 1 + sizes[0],
    decreases i,
{
    if i > 0 {
        lemma_chain_start_mono(sizes, pos, i - 1);
    }
}

/// What each GIF block does to the count: a graphic control extension
/// (`21 F9 04`, then the delay in centiseconds, little-endian, at the 5th
/// and 6th bytes) sets the delay given to the next image; an image
/// descriptor (`2C`, nine bytes with no local colour table, the LZW code
/// size, then its chain of data sub-blocks) counts one frame and adds the
/// pending delay; the trailer (`3B`) ends the scan with the counts so far.
pub proof fn lemma_gif_block_steps(
    data: Seq<u8>,
    pos: int,
    frames: int,
    dur: int,
    pending: int,
    sizes: Seq<u8>,
)
    requires
        0 <= pos < data.len(),
    ensures
        data[pos] == 0x3Bu8 ==> gif_blocks(data, pos, frames, dur, pending) == Ok::<(int, int), &'static str>(
            (frames, dur),
        ),
        data[pos] == 0x21u8 && pos + 8 <= data.len() && data[pos + 1] == 0xF9u8 && data[pos + 2] == 4u8
            ==> gif_blocks(data, pos, frames, dur, pending) == gif_blocks(
            data,
            pos + 8,
            frames,
            dur,
            data[pos + 4] as int + 256 * data[pos + 5] as int,
        ),
        ({
            &&& data[pos] == 0x2Cu8
            &&& frames + 1 <= u32::MAX
            &&& pos + 11 <= data.len()
            &&& data[pos + 9] & 0x80u8 == 0
            &&& forall|i: int| 0 <= i < sizes.len() ==> #[trigger] sizes[i] != 0
            &&& chain_end(sizes, pos + 11) < data.len()
            &&& forall|i: int| 0 <= i < sizes.len() ==> data[#[trigger] chain_start(sizes, pos + 11, i)] == sizes[i]
            &&& data[chain_end(sizes, pos + 11)] == 0
        }) ==> gif_blocks(data, pos, frames, dur, pending) == gif_blocks(
            data,
            chain_end(sizes, pos + 11) + 1,
            frames + 1,
            dur + pending,
            0,
        ),
{
    if data[pos] == 0x2Cu8 && frames + 1 <= u32::MAX && pos + 11 <= data.len() && data[pos + 9] & 0x80u8 == 0
        && (forall|i: int| 0 <= i < sizes.len() ==> #[trigger] sizes[i] != 0) && chain_end(sizes, pos + 11)
        < data.len() && (forall|i: int|
        0 <= i < sizes.len() ==> data[#[trigger] chain_start(sizes, pos + 11, i)] == sizes[i]) && data[chain_end(
        sizes,
        pos + 11,
    )] == 0 {
        lemma_skip_sub_blocks_chain(sizes, data, pos + 11);
    }
}

/// What each RIFF chunk does to the count: an `ANMF` chunk of at least 16
/// bytes counts one frame and adds its 24-bit duration (bytes 12 to 14 of
/// its data, little-endian); any other chunk is passed over; either way the
/// walk goes on after the chunk's data and its padding byte, if its size is
/// odd. Fewer than eight bytes before the end stop the walk.
pub proof fn lemma_webp_chunk_steps(data: Seq<u8>, end: int, pos: int, frames: int, dur: int)
    requires
        0 <= pos,
        end <= data.len(),
    ensures
        end - pos < 8 ==> webp_chunks(data, end, pos, frames, dur) == Ok::<(int, int), &'static str>((frames, dur)),
        ({
            let size = data[pos + 4] as int + 256 * data[pos + 5] as int + 65536 * data[pos + 6] as int
                + 16777216 * data[pos + 7] as int;
            let next = pos + 8 + size + size % 2;
            let anmf = data[pos] == 0x41u8 && data[pos + 1] == 0x4Eu8 && data[pos + 2] == 0x4Du8 && data[pos
                + 3] == 0x46u8;
            &&& end - pos >= 8 && size <= end - pos - 8 && anmf && size >= 16 && frames + 1 <= u32::MAX
                ==> webp_chunks(data, end, pos, frames, dur) == webp_chunks(
                data,
                end,
                next,
                frames + 1,
                dur + data[pos + 20] as int + 256 * data[pos + 21] as int + 65536 * data[pos + 22] as int,
            )
            &&& end - pos >= 8 && size <= end - pos - 8 && !anmf ==> webp_chunks(data, end, pos, frames, dur)
                == webp_chunks(data, end, next, frames, dur)
        }),
{
}

} // verus!
