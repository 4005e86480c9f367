//! Wire inversion, pixel packing and small helpers shared by the generators.
use crate::blueprint::constants::GRAYSCALE_THRESH;
use crate::blueprint::models::{
    decider_swapped, ControlBehavior, DeciderConditions, Entity, NetworkSwapper, Wire,
};
use vstd::prelude::*;

verus! {

/// The ways blueprint generation can fail.
#[derive(Debug)]
pub enum BlueprintError {
    NoFramesProvided,
    UnsupportedGrayscaleBitDepth,
    OutputsLengthMismatch { outputs: usize, expected: usize },
    NoSampledFrames,
    NotEnoughSignals,
    AlreadyFinished,
    UnsupportedEntityDirection,
    UnsupportedEntityType,
    MissingEntity,
    TooManyEntities,
    Base64,
}

/// A decoded RGBA frame: `width * height` pixels, four bytes each, row by row.
pub struct RgbaFrame {
    pub width: u32,
    pub height: u32,
    pub data: Vec<u8>,
}

impl RgbaFrame {
    /// Dimensions that match the pixel data.
    pub open spec fn wf(&self) -> bool {
        self.data@.len() == self.width * self.height * 4
    }

    /// Byte `ch` of pixel `(x, y)`.
    pub open spec fn spec_channel(&self, x: int, y: int, ch: int) -> u8 {
        self.data@[(y * self.width + x) * 4 + ch]
    }
}

/// A decoded frame with `channels` bytes per pixel (1 for luma, 3 for RGB),
/// row by row.
pub struct Raster {
    pub width: u32,
    pub height: u32,
    pub data: Vec<u8>,
}

impl Raster {
    /// Dimensions that match the pixel data for `channels` bytes per pixel.
    pub open spec fn wf(&self, channels: int) -> bool {
        self.data@.len() == self.width * self.height * channels
    }
}

/// Width of the part of a `total`-wide image that a crop from `x` of width
/// `w` keeps.
pub open spec fn clipped(x: int, w: int, total: int) -> int {
    if x >= total { 0 } else if x + w > total { total - x } else { w }
}

/// The rectangle `(x, y, w, h)` of `img`, clipped to the image.
pub open spec fn spec_crop(img: Raster, channels: int, x: int, y: int, w: int, h: int) -> Seq<u8> {
    let cw = clipped(x, w, img.width as int);
    let ch = clipped(y, h, img.height as int);
    Seq::new(
        (cw * ch * channels) as nat,
        |k: int|
            img.data@[((y + k / (cw * channels)) * img.width + x) * channels + k % (cw * channels)],
    )
}

/// Byte `ch` of pixel `(c, r)` of a crop is byte `ch` of pixel
/// `(x + c, y + r)` of the image.
pub proof fn lemma_crop_index(img: Raster, channels: int, x: int, y: int, w: int, h: int, c: int, r: int, ch: int)
    requires
        1 <= channels,
        0 <= x,
        0 <= y,
        x + w <= img.width,
        y + h <= img.height,
        0 <= c < w,
        0 <= r < h,
        0 <= ch < channels,
    ensures
        spec_crop(img, channels, x, y, w, h)[(r * w + c) * channels + ch] == img.data@[((y + r)
            * img.width + x + c) * channels + ch],
        0 <= (r * w + c) * channels + ch < w * h * channels,
{
    let k = (r * w + c) * channels + ch;
    assert(k == r * (w * channels) + (c * channels + ch)) by (nonlinear_arith)
        requires
            k == (r * w + c) * channels + ch,
    ;
    assert(0 <= c * channels + ch < w * channels) by (nonlinear_arith)
        requires
            0 <= c < w,
            0 <= ch < channels,
    ;
    vstd::arithmetic::div_mod::lemma_fundamental_div_mod_converse(
        k,
        w * channels,
        r,
        c * channels + ch,
    );
    assert(((y + r) * img.width + x) * channels + (c * channels + ch) == ((y + r) * img.width + x
        + c) * channels + ch) by (nonlinear_arith);
    assert(k < w * h * channels) by (nonlinear_arith)
        requires
            k == r * (w * channels) + (c * channels + ch),
            0 <= c * channels + ch < w * channels,
            0 <= r < h,
    ;
    assert(0 <= k) by (nonlinear_arith)
        requires
            k == r * (w * channels) + (c * channels + ch),
            0 <= c * channels + ch,
            0 <= r,
            w * channels >= 0,
    ;
}

/// Cuts the rectangle `(x, y, w, h)` out of `img`, clipped to the image
/// (as `image::DynamicImage::crop_imm` does).
pub fn crop(img: &Raster, channels: u32, x: u32, y: u32, w: u32, h: u32) -> (r: Raster)
    requires
        1 <= channels <= 4,
        img.wf(channels as int),
    ensures
        r.width == clipped(x as int, w as int, img.width as int),
        r.height == clipped(y as int, h as int, img.height as int),
        r.wf(channels as int),
        r.data@ == spec_crop(*img, channels as int, x as int, y as int, w as int, h as int),
{
    let cw: u32 = if x >= img.width { 0 } else if w > img.width - x { img.width - x } else { w };
    let chh: u32 = if y >= img.height { 0 } else if h > img.height - y { img.height - y } else { h };
    let len = img.data.len();
    let ghost spec = spec_crop(*img, channels as int, x as int, y as int, w as int, h as int);
    proof {
        assert(cw * chh * channels <= img.width * img.height * channels) by (nonlinear_arith)
            requires cw <= img.width, chh <= img.height, channels >= 1;
    }
    let mut data: Vec<u8> = Vec::new();
    let mut row: usize = 0;
    while row < chh as usize
        invariant
            0 <= row <= chh,
            1 <= channels <= 4,
            len == img.data@.len(),
            img.wf(channels as int),
            cw == clipped(x as int, w as int, img.width as int),
            chh == clipped(y as int, h as int, img.height as int),
            cw * chh * channels <= img.width * img.height * channels,
            spec == spec_crop(*img, channels as int, x as int, y as int, w as int, h as int),
            data@ == spec.take(row * cw * channels),
        decreases chh - row,
    {
        proof {
            assert(row * cw * channels + cw * channels <= cw * chh * channels) by (nonlinear_arith)
                requires row < chh;
        }
        let row_len = (cw as usize) * (channels as usize);
        let mut col: usize = 0;
        while col < row_len
            invariant
                0 <= row < chh,
                0 <= col <= row_len,
                row_len == cw * channels,
                1 <= channels <= 4,
                len == img.data@.len(),
                img.wf(channels as int),
                cw == clipped(x as int, w as int, img.width as int),
                chh == clipped(y as int, h as int, img.height as int),
                row * cw * channels + row_len <= cw * chh * channels,
                spec == spec_crop(*img, channels as int, x as int, y as int, w as int, h as int),
                data@ == spec.take(row * cw * channels + col),
            decreases row_len - col,
        {
            let ghost k = row * cw * channels + col;
            proof {
                assert(k / (cw * channels) == row && k % (cw * channels) == col) by (nonlinear_arith)
                    requires k == row * cw * channels + col, col < cw * channels;
                assert(((y + row) * img.width + x) * channels + col < img.width * img.height * channels)
                    by (nonlinear_arith)
                    requires
                        y + row < img.height,
                        x + cw <= img.width,
                        col < cw * channels,
                        channels >= 1,
                ;
                assert(((y + row) * img.width + x) * channels + col >= 0) by (nonlinear_arith)
                    requires channels >= 1, col >= 0;
                assert(((y + row) * img.width + x) * channels <= ((y + row) * img.width + x) * channels + col);
                assert((y + row) * img.width <= (y + row) * img.width + x);
                assert(((y + row) * img.width + x) <= ((y + row) * img.width + x) * channels)
                    by (nonlinear_arith)
                    requires channels >= 1, (y + row) * img.width + x >= 0;
                assert((y + row) * img.width >= 0) by (nonlinear_arith) requires y + row >= 0;
                assert(img.width * img.height * channels == len);
            }
            let idx = (((y as usize) + row) * (img.width as usize) + (x as usize)) * (channels as usize)
                + col;
            data.push(img.data[idx]);
            proof {
                assert(data@ =~= spec.take(k + 1));
            }
            col += 1;
        }
        proof {
            assert(row * cw * channels + row_len == (row + 1) * cw * channels) by (nonlinear_arith)
                requires row_len == cw * channels;
        }
        row += 1;
    }
    proof {
        assert(chh * cw * channels == cw * chh * channels) by (nonlinear_arith);
        assert(data@ =~= spec);
    }
    Raster { width: cw, height: chh, data }
}

// ---------------------------------------------------------------------------
// Wire colours
// ---------------------------------------------------------------------------

/// Red and green connectors trade places; copper connectors stay.
pub open spec fn spec_swap_connector(wire_id: u32) -> u32 {
    if wire_id == 1 { 2 }
    else if wire_id == 2 { 1 }
    else if wire_id == 3 { 4 }
    else if wire_id == 4 { 3 }
    else { wire_id }
}

/// A wire with the colours of both of its ends swapped.
pub open spec fn spec_inverted_wire(w: Wire) -> Wire {
    [w[0], spec_swap_connector(w[1]), w[2], spec_swap_connector(w[3])]
}

/// `new` is `old` with the networks of its decider settings swapped; entities
/// of any other kind stay as they are.
pub open spec fn entity_inverted(old: Entity, new: Entity) -> bool {
    match old.control_behavior {
        Some(ControlBehavior::Decider { decider_conditions: d }) => new.control_behavior matches Some(
            ControlBehavior::Decider { decider_conditions: nd },
        ) && decider_swapped(d, nd) && new == (Entity { control_behavior: new.control_behavior, ..old }),
        _ => new == old,
    }
}

#[inline(always)]
fn get_swap(wire_id: u32) -> (r: u32)
    ensures
        r == spec_swap_connector(wire_id),
{
    match wire_id {
        1 => 2,  // circuit_green / combinator_input_green -> circuit_red / combinator_input_red
        2 => 1,  // circuit_red / combinator_input_red -> circuit_green / combinator_input_green
        3 => 4,  // combinator_output_green -> combinator_output_red
        4 => 3,  // combinator_output_red -> combinator_output_green
        _ => wire_id,  // usually just copper
    }
}

fn invert_entity(ent: &mut Entity)
    ensures
        entity_inverted(*old(ent), *final(ent)),
{
    match ent.control_behavior.take() {
        Some(ControlBehavior::Decider { decider_conditions }) => {
            let mut d: DeciderConditions = decider_conditions;
            d.swap_networks();
            ent.control_behavior = Some(ControlBehavior::Decider { decider_conditions: d });
        },
        other => {
            ent.control_behavior = other;
        },
    }
}

/// Swaps red and green everywhere: on every wire end, and in the network
/// filters of every decider combinator.
pub fn invert_wires(ents: &mut Vec<Entity>, wires: &mut Vec<Wire>)
    ensures
        final(ents)@.len() == old(ents)@.len(),
        forall|i: int|
            0 <= i < old(ents)@.len() ==> entity_inverted(#[trigger] old(ents)@[i], final(ents)@[i]),
        final(wires)@ == old(wires)@.map_values(|w: Wire| spec_inverted_wire(w)),
{
    let n = ents.len();
    let mut i: usize = 0;
    while i < n
        invariant
            n == ents@.len() == old(ents)@.len(),
            0 <= i <= n,
            forall|j: int| 0 <= j < i ==> entity_inverted(#[trigger] old(ents)@[j], ents@[j]),
            forall|j: int| i <= j < n ==> ents@[j] == old(ents)@[j],
        decreases n - i,
    {
        let mut e = ents.remove(i);
        invert_entity(&mut e);
        ents.insert(i, e);
        i += 1;
    }
    let m = wires.len();
    let mut k: usize = 0;
    while k < m
        invariant
            m == wires@.len() == old(wires)@.len(),
            0 <= k <= m,
            forall|j: int| 0 <= j < k ==> wires@[j] == spec_inverted_wire(old(wires)@[j]),
            forall|j: int| k <= j < m ==> wires@[j] == old(wires)@[j],
        decreases m - k,
    {
        let w = wires[k];
        let nw: Wire = [w[0], get_swap(w[1]), w[2], get_swap(w[3])];
        wires.set(k, nw);
        k += 1;
    }
    assert(wires@ =~= old(wires)@.map_values(|w: Wire| spec_inverted_wire(w)));
}

/// Inverting the colours of a wire twice gives the wire back.
pub proof fn lemma_invert_wire_involution(w: Wire)
    ensures
        spec_inverted_wire(spec_inverted_wire(w)) == w,
{
    assert(spec_inverted_wire(spec_inverted_wire(w))@ =~= w@);
}

/// Running `invert_wires` twice gives back the same wires.
pub proof fn lemma_invert_wires_twice(w0: Seq<Wire>, w1: Seq<Wire>, w2: Seq<Wire>)
    requires
        w1 == w0.map_values(|w: Wire| spec_inverted_wire(w)),
        w2 == w1.map_values(|w: Wire| spec_inverted_wire(w)),
    ensures
        w2 == w0,
{
    assert forall|i: int| 0 <= i < w0.len() implies w2[i] == w0[i] by {
        lemma_invert_wire_involution(w0[i]);
    }
    assert(w2 =~= w0);
}

// ---------------------------------------------------------------------------
// Pixel packing
// ---------------------------------------------------------------------------

/// A 24-bit colour value: red in the high byte, blue in the low byte.
pub open spec fn spec_rgb_value(r: u8, g: u8, b: u8) -> int {
    r as int * 65536 + g as int * 256 + b as int
}

/// Packs three channels into one integer, `0xRRGGBB`.
pub fn pack_rgb(r: u8, g: u8, b: u8) -> (v: u32)
    ensures
        v == spec_rgb_value(r, g, b),
{
    let v = ((r as u32) << 16) | ((g as u32) << 8) | (b as u32);
    assert(((r as u32) << 16) | ((g as u32) << 8) | (b as u32) == (r as u32) * 65536 + (g as u32)
        * 256 + (b as u32)) by (bit_vector);
    v
}

/// One output per whole RGB triple of `rgb`, in order.
pub open spec fn spec_rgb_outputs(rgb: Seq<u8>) -> Seq<i32> {
    Seq::new(rgb.len() / 3, |k: int| spec_rgb_value(rgb[3 * k], rgb[3 * k + 1], rgb[3 * k + 2]) as i32)
}

/// One output per RGBA quadruple of `rgba` (alpha ignored), in order.
pub open spec fn spec_rgba_outputs(rgba: Seq<u8>) -> Seq<i32> {
    Seq::new(
        rgba.len() / 4,
        |k: int| spec_rgb_value(rgba[4 * k], rgba[4 * k + 1], rgba[4 * k + 2]) as i32,
    )
}

/// Converts the raw RGB bytes of a frame into one colour value per pixel.
///
/// A trailing partial pixel is ignored.
pub fn color_frame_to_outputs(rgb: &[u8]) -> (r: Result<Vec<i32>, BlueprintError>)
    ensures
        r matches Ok(outputs) && outputs@ == spec_rgb_outputs(rgb@),
{
    let len = rgb.len();
    let n = len / 3;
    let mut outputs: Vec<i32> = Vec::with_capacity(n);
    let mut k: usize = 0;
    while k < n
        invariant
            len == rgb@.len(),
            n == rgb@.len() / 3,
            0 <= k <= n,
            outputs@ == spec_rgb_outputs(rgb@).take(k as int),
        decreases n - k,
    {
        assert(3 * k + 2 < rgb@.len()) by (nonlinear_arith)
            requires
                k < n,
                n == rgb@.len() / 3,
        ;
        let v = pack_rgb(rgb[3 * k], rgb[3 * k + 1], rgb[3 * k + 2]);
        outputs.push(v as i32);
        assert(outputs@ =~= spec_rgb_outputs(rgb@).take(k + 1));
        k += 1;
    }
    assert(outputs@ =~= spec_rgb_outputs(rgb@));
    Ok(outputs)
}

/// Converts the raw RGBA bytes of a frame into one colour value per pixel.
pub fn rgba_to_rgb_simd(rgba: &[u8]) -> (outputs: Vec<i32>)
    requires
        rgba@.len() % 4 == 0,
    ensures
        outputs@ == spec_rgba_outputs(rgba@),
{
    let len = rgba.len();
    let pixel_count = len / 4;
    let mut output: Vec<i32> = Vec::with_capacity(pixel_count);
    let mut k: usize = 0;
    while k < pixel_count
        invariant
            len == rgba@.len(),
            pixel_count == rgba@.len() / 4,
            0 <= k <= pixel_count,
            output@ == spec_rgba_outputs(rgba@).take(k as int),
        decreases pixel_count - k,
    {
        assert(4 * k + 3 < rgba@.len()) by (nonlinear_arith)
            requires
                k < pixel_count,
                pixel_count == rgba@.len() / 4,
        ;
        let v = pack_rgb(rgba[4 * k], rgba[4 * k + 1], rgba[4 * k + 2]);
        output.push(v as i32);
        assert(output@ =~= spec_rgba_outputs(rgba@).take(k + 1));
        k += 1;
    }
    assert(output@ =~= spec_rgba_outputs(rgba@));
    output
}

/// The grayscale depths that can be packed.
pub open spec fn valid_gray_bits(bits: u32) -> bool {
    bits == 1 || bits == 4 || bits == 8
}

/// A luma value reduced to `bits` bits: on/off at the threshold, the high
/// nibble, or the value itself.
pub open spec fn spec_quantize(v: u8, bits: u32) -> u32 {
    if bits == 1 {
        if v >= GRAYSCALE_THRESH { 1 } else { 0 }
    } else if bits == 4 {
        (v / 16) as u32
    } else {
        v as u32
    }
}

/// The mask of the low `bits` bits.
pub open spec fn spec_gray_mask(bits: u32) -> u32 {
    if bits == 1 { 1 } else if bits == 4 { 15 } else { 255 }
}

/// Pixel `i` of the first `n` frames packed into one integer: frame `j` in
/// bits `bits * j` upwards.
pub open spec fn spec_pack_pixel(frames: Seq<Seq<u8>>, i: int, bits: u32, n: int) -> u32
    decreases n,
{
    if n <= 0 {
        0
    } else {
        spec_pack_pixel(frames, i, bits, n - 1) | (spec_quantize(frames[n - 1][i], bits) << (
        bits * (n - 1) as u32))
    }
}

/// Frames that can be packed together: each as large as the first, and no
/// more of them than fit in 32 bits.
pub open spec fn packable_frames(frames: Seq<Seq<u8>>, bits: u32) -> bool {
    &&& valid_gray_bits(bits) ==> frames.len() * bits <= 32
    &&& forall|j: int| 0 <= j < frames.len() ==> frames[0].len() <= (#[trigger] frames[j]).len()
}

/// The contents of a list of rasters.
pub open spec fn rasters_view(b: Seq<Vec<u8>>) -> Seq<Seq<u8>> {
    b.map_values(|v: Vec<u8>| v@)
}

/// Grayscale frames packed pixel by pixel, as `grayscale_frames_to_outputs`
/// gives them.
pub open spec fn packed_gray(fb: Seq<Seq<u8>>, bits: u32) -> Seq<i32> {
    Seq::new(fb[0].len(), |i: int| spec_pack_pixel(fb, i, bits, fb.len() as int) as i32)
}

proof fn lemma_quantize_bound(v: u8, bits: u32)
    requires
        valid_gray_bits(bits),
    ensures
        spec_quantize(v, bits) <= spec_gray_mask(bits),
{
}

proof fn lemma_or_shift_fits(x: u32, q: u32, s: u32, m: u32, b: u32)
    requires
        b == 1 || b == 4 || b == 8,
        m == (if b == 1 { 1u32 } else if b == 4 { 15u32 } else { 255u32 }),
        q <= m,
        s + b <= 32,
        s < 32,
        x >> s == 0,
    ensures
        s + b < 32 ==> (x | (q << s)) >> ((s + b) as u32) == 0,
        ((x | (q << s)) >> s) & m == q,
        forall|t: u32| t + b <= s ==> (#[trigger] ((x | (q << s)) >> t)) & m == (x >> t) & m,
{
    assert(s + b < 32 ==> (x | (q << s)) >> ((s + b) as u32) == 0) by (bit_vector)
        requires
            b == 1 || b == 4 || b == 8,
            m == (if b == 1 { 1u32 } else if b == 4 { 15u32 } else { 255u32 }),
            q <= m,
            s + b <= 32,
            x >> s == 0,
    ;
    assert(((x | (q << s)) >> s) & m == q) by (bit_vector)
        requires
            b == 1 || b == 4 || b == 8,
            m == (if b == 1 { 1u32 } else if b == 4 { 15u32 } else { 255u32 }),
            q <= m,
            s + b <= 32,
            s < 32,
            x >> s == 0,
    ;
    assert forall|t: u32| t + b <= s implies (#[trigger] ((x | (q << s)) >> t)) & m == (x >> t) & m by {
        assert(((x | (q << s)) >> t) & m == (x >> t) & m) by (bit_vector)
            requires
                b == 1 || b == 4 || b == 8,
                m == (if b == 1 { 1u32 } else if b == 4 { 15u32 } else { 255u32 }),
                q <= m,
                s < 32,
                t + b <= s,
        ;
    }
}

/// Unpacking recovers every frame: shifting the packed value right by
/// `bits * j` and masking the low `bits` bits gives frame `j`'s quantized
/// pixel. This is what the shift and AND combinators compute in game.
pub proof fn lemma_unpack_pixel(frames: Seq<Seq<u8>>, i: int, bits: u32, n: int, j: int)
    requires
        valid_gray_bits(bits),
        0 <= j < n,
        n * bits <= 32,
        n <= frames.len(),
    ensures
        (spec_pack_pixel(frames, i, bits, n) >> (bits * j as u32)) & spec_gray_mask(bits)
            == spec_quantize(frames[j][i], bits),
        n * bits < 32 ==> spec_pack_pixel(frames, i, bits, n) >> ((bits * n) as u32) == 0,
    decreases n,
{
    assert(bits * (n - 1) + bits == bits * n && bits * n == n * bits && bits * (n - 1) < 32
        && (n - 1) * bits < 32) by (nonlinear_arith)
        requires
            n * bits <= 32,
            bits >= 1,
            n >= 1,
    ;
    lemma_pack_fits(frames, i, bits, n - 1);
    let x = spec_pack_pixel(frames, i, bits, n - 1);
    let q = spec_quantize(frames[n - 1][i], bits);
    let s = (bits * (n - 1)) as u32;
    lemma_quantize_bound(frames[n - 1][i], bits);
    lemma_or_shift_fits(x, q, s, spec_gray_mask(bits), bits);
    if j < n - 1 {
        lemma_unpack_pixel(frames, i, bits, n - 1, j);
        assert(bits * j + bits <= bits * (n - 1)) by (nonlinear_arith)
            requires
                j < n - 1,
                bits >= 1,
        ;
        let t = (bits * j) as u32;
        assert(((x | (q << s)) >> t) & spec_gray_mask(bits) == (x >> t) & spec_gray_mask(bits));
    }
}

/// The packed value of the first `n` frames has nothing above bit `bits * n`.
proof fn lemma_pack_fits(frames: Seq<Seq<u8>>, i: int, bits: u32, n: int)
    requires
        valid_gray_bits(bits),
        0 <= n,
        n * bits < 32,
        n <= frames.len(),
    ensures
        spec_pack_pixel(frames, i, bits, n) >> ((bits * n) as u32) == 0,
    decreases n,
{
    if n == 0 {
        assert(0u32 >> 0u32 == 0) by (bit_vector);
    } else {
        assert(bits * (n - 1) + bits == bits * n && bits * n == n * bits && (n - 1) * bits < 32)
            by (nonlinear_arith)
            requires
                n * bits < 32,
                bits >= 1,
                n >= 1,
        ;
        lemma_pack_fits(frames, i, bits, n - 1);
        let x = spec_pack_pixel(frames, i, bits, n - 1);
        let q = spec_quantize(frames[n - 1][i], bits);
        let s = (bits * (n - 1)) as u32;
        lemma_quantize_bound(frames[n - 1][i], bits);
        lemma_or_shift_fits(x, q, s, spec_gray_mask(bits), bits);
    }
}

/// Packs grayscale frames into output signals by bit-packing pixel values.
///
/// A single output represents the value of a single pixel across multiple
/// frames: frame `j` is stored in bits `grayscale_bits * j` upwards.
pub fn grayscale_frames_to_outputs(frames: &[Vec<u8>], grayscale_bits: u32) -> (r: Result<
    Vec<i32>,
    BlueprintError,
>)
    requires
        packable_frames(rasters_view(frames@), grayscale_bits),
    ensures
        frames@.len() == 0 ==> r matches Err(BlueprintError::NoFramesProvided),
        frames@.len() > 0 && !valid_gray_bits(grayscale_bits) ==> r matches Err(
            BlueprintError::UnsupportedGrayscaleBitDepth,
        ),
        frames@.len() > 0 && valid_gray_bits(grayscale_bits) ==> (r matches Ok(outputs)
            && outputs@ == packed_gray(rasters_view(frames@), grayscale_bits)),
{
    if frames.len() == 0 {
        return Err(BlueprintError::NoFramesProvided);
    }
    if !(grayscale_bits == 1 || grayscale_bits == 4 || grayscale_bits == 8) {
        return Err(BlueprintError::UnsupportedGrayscaleBitDepth);
    }
    let num_pixels = frames[0].len();
    let n_frames = frames.len();
    let mut outputs: Vec<i32> = Vec::with_capacity(num_pixels);
    let mut i: usize = 0;
    while i < num_pixels
        invariant
            num_pixels == frames@[0]@.len(),
            n_frames == frames@.len() > 0,
            valid_gray_bits(grayscale_bits),
            packable_frames(rasters_view(frames@), grayscale_bits),
            0 <= i <= num_pixels,
            outputs@.len() == i,
            forall|k: int|
                0 <= k < i ==> #[trigger] outputs@[k] == spec_pack_pixel(
                    rasters_view(frames@),
                    k,
                    grayscale_bits,
                    n_frames as int,
                ) as i32,
        decreases num_pixels - i,
    {
        let mut packed: u32 = 0;
        let mut j: usize = 0;
        while j < n_frames
            invariant
                num_pixels == frames@[0]@.len(),
                n_frames == frames@.len() > 0,
                valid_gray_bits(grayscale_bits),
                packable_frames(rasters_view(frames@), grayscale_bits),
                i < num_pixels,
                0 <= j <= n_frames,
                packed == spec_pack_pixel(rasters_view(frames@), i as int, grayscale_bits, j as int),
            decreases n_frames - j,
        {
            assert(rasters_view(frames@)[0].len() <= rasters_view(frames@)[j as int].len());
            let v = frames[j][i];
            assert(j * grayscale_bits < 32) by (nonlinear_arith)
                requires
                    j < n_frames,
                    n_frames * grayscale_bits <= 32,
                    grayscale_bits >= 1,
            ;
            let shift = (j as u32) * grayscale_bits;
            let q: u32 = if grayscale_bits == 1 {
                if v >= GRAYSCALE_THRESH { 1 } else { 0 }
            } else if grayscale_bits == 4 {
                (v >> 4) as u32
            } else {
                v as u32
            };
            assert(grayscale_bits == 4 ==> (v >> 4u8) as u32 == (v / 16) as u32) by (bit_vector);
            assert(shift == grayscale_bits * (j as int)) by (nonlinear_arith)
                requires shift == (j as u32) * grayscale_bits, j * grayscale_bits < 32;
            packed = packed | (q << shift);
            j += 1;
        }
        outputs.push(packed as i32);
        i += 1;
    }
    assert(outputs@ =~= packed_gray(rasters_view(frames@), grayscale_bits));
    Ok(outputs)
}

/// Whether an optional string is absent or empty.
pub fn is_none_or_empty_string(value: &Option<String>) -> (r: bool)
    ensures
        r == (value matches Some(v) ==> v@.len() == 0),
{
    match value {
        None => true,
        Some(v) => v.as_str().is_empty(),
    }
}

/// Whether an optional vector is absent or empty.
pub fn is_none_or_empty_vec<T>(value: &Option<Vec<T>>) -> (r: bool)
    ensures
        r == (value matches Some(v) ==> v@.len() == 0),
{
    match value {
        None => true,
        Some(v) => v.len() == 0,
    }
}

/// One value or a list of them.
pub enum OneOrMany<T> {
    One(T),
    Many(Vec<T>),
}

impl<T: Clone> OneOrMany<T> {
    /// Returns a new clone of the contained value.
    pub fn to_vec(&self) -> (v: Vec<T>)
        ensures
            match self {
                OneOrMany::One(x) => v@.len() == 1 && cloned(*x, v@[0]),
                OneOrMany::Many(xs) => v@.len() == xs@.len() && forall|i: int|
                    0 <= i < xs@.len() ==> cloned(#[trigger] xs@[i], v@[i]),
            },
    {
        match self {
            Self::One(x) => {
                let mut v = Vec::new();
                v.push(x.clone());
                v
            },
            Self::Many(xs) => {
                let mut v: Vec<T> = Vec::new();
                let mut i: usize = 0;
                while i < xs.len()
                    invariant
                        0 <= i <= xs@.len(),
                        v@.len() == i,
                        forall|k: int| 0 <= k < i ==> cloned(#[trigger] xs@[k], v@[k]),
                    decreases xs@.len() - i,
                {
                    v.push(xs[i].clone());
                    i += 1;
                }
                v
            },
        }
    }
}

} // verus!
