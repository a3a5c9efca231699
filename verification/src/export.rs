//! GIF export planning: size estimates, presets and the probe output parser.
use vstd::prelude::*;

use std::path::PathBuf;
use crate::binary64::{SIGNIFICAND_END, binary64_to_u64, lemma_from_integer_monotone, lemma_nearest_bounds, lemma_product_monotone, lemma_quotient_monotone, lemma_to_u64_monotone, value_le, from_integer, product, quotient, round_to_binary64, to_u64_saturating};
use vstd::string::StringSliceAdditionalSpecFns;

verus! {

/// Why an export failed.
#[derive(Debug)]
pub enum ExportError {
    Io(std::io::Error),
    FfmpegUnavailable,
    FfmpegFailed { stage: &'static str, status: i32 },
    Cancelled,
    InvalidDimensions,
}

/// Output settings of a GIF export.
#[derive(Debug, Clone, Copy)]
pub struct GifPreset {
    pub width: u32,
    pub fps: u32,
    pub colors: u16,
    pub loop_forever: bool,
}

impl GifPreset {
    /// The preset for GIFs embedded in GitHub pages: at most 960 pixels wide,
    /// 15 frames a second and 128 colours, looping forever.
    pub fn github() -> (preset: GifPreset)
        ensures
            preset.width == 960,
            preset.fps == 15,
            preset.colors == 128,
            preset.loop_forever,
    {
        GifPreset { width: 960, fps: 15, colors: 128, loop_forever: true }
    }
}

/// What a finished export produced.
#[derive(Debug)]
pub struct ExportResult {
    pub path: PathBuf,
    pub bytes: u64,
    pub frames: u64,
}

/// 0.105 as a binary64: 7566047373982433 * 2^-56.
pub open spec fn bytes_per_pixel_frame() -> (int, int) {
    (7566047373982433, -56)
}

/// The estimate in binary64 arithmetic: the frame count
/// `duration_ms / 1000 * fps`, the pixel count `width * height`, their
/// product, times 0.105 bytes, each step rounded to the nearest binary64,
/// and the result truncated to a `u64` (saturating).
pub open spec fn gif_estimate(width: u32, height: u32, duration_ms: u64, fps: u32) -> int {
    let frames = product(quotient(from_integer(duration_ms as int), 1000), from_integer(fps as int));
    let pixels = product(from_integer(width as int), from_integer(height as int));
    to_u64_saturating(product(product(pixels, frames), bytes_per_pixel_frame()))
}

/// Two significands multiply to less than 2^106.
proof fn lemma_significand_product(x: u64, y: u64)
    requires
        x < SIGNIFICAND_END,
        y < SIGNIFICAND_END,
    ensures
        x * y < 0x400_0000_0000_0000_0000_0000_0000,
{
    assert(x * y < 0x400_0000_0000_0000_0000_0000_0000) by (nonlinear_arith)
        requires x < 0x20_0000_0000_0000, y < 0x20_0000_0000_0000;
}

/// Estimates the number of bytes of a GIF with the given frame size,
/// duration and frame rate: about 0.105 bytes per pixel per frame, computed
/// in binary64 arithmetic.
pub fn estimated_gif_bytes(width: u32, height: u32, duration_ms: u64, fps: u32) -> (bytes: u64)
    ensures
        bytes == gif_estimate(width, height, duration_ms, fps),
{
    let d = round_to_binary64(duration_ms as u128, 1, 0);
    let per_second = round_to_binary64(d.0 as u128, 1000, d.1);
    let rate = round_to_binary64(fps as u128, 1, 0);
    proof {
        lemma_significand_product(per_second.0, rate.0);
    }
    let frames = round_to_binary64(per_second.0 as u128 * rate.0 as u128, 1, per_second.1 + rate.1);
    let w = round_to_binary64(width as u128, 1, 0);
    let h = round_to_binary64(height as u128, 1, 0);
    proof {
        lemma_significand_product(w.0, h.0);
    }
    let pixels = round_to_binary64(w.0 as u128 * h.0 as u128, 1, w.1 + h.1);
    proof {
        lemma_significand_product(pixels.0, frames.0);
    }
    let total = round_to_binary64(pixels.0 as u128 * frames.0 as u128, 1, pixels.1 + frames.1);
    proof {
        lemma_significand_product(total.0, 7566047373982433);
    }
    let bytes = round_to_binary64(total.0 as u128 * 7566047373982433u128, 1, total.1 - 56);
    binary64_to_u64(bytes.0, bytes.1)
}

/// An export with no pixels, no duration or no frame rate is estimated at
/// zero bytes.
pub proof fn lemma_estimate_vanishes(width: u32, height: u32, duration_ms: u64, fps: u32)
    requires
        width == 0 || height == 0 || duration_ms == 0 || fps == 0,
    ensures
        gif_estimate(width, height, duration_ms, fps) == 0,
{
    let frames = product(quotient(from_integer(duration_ms as int), 1000), from_integer(fps as int));
    let pixels = product(from_integer(width as int), from_integer(height as int));
    let per_second = quotient(from_integer(duration_ms as int), 1000);
    let rate = from_integer(fps as int);
    let w = from_integer(width as int);
    let h = from_integer(height as int);
    if duration_ms == 0 || fps == 0 {
        assert(per_second.0 == 0 || rate.0 == 0);
        assert(per_second.0 * rate.0 == 0) by (nonlinear_arith)
            requires per_second.0 == 0 || rate.0 == 0;
        assert(frames == (0int, 0int));
        assert(pixels.0 * frames.0 == 0) by (nonlinear_arith)
            requires frames.0 == 0;
    } else {
        assert(w.0 == 0 || h.0 == 0);
        assert(w.0 * h.0 == 0) by (nonlinear_arith)
            requires w.0 == 0 || h.0 == 0;
        assert(pixels == (0int, 0int));
        assert(pixels.0 * frames.0 == 0) by (nonlinear_arith)
            requires pixels.0 == 0;
    }
    assert(product(pixels, frames) == (0int, 0int));
    assert(product(product(pixels, frames), bytes_per_pixel_frame()) == (0int, 0int));
}

/// The estimate never decreases when the frame size, the duration or the
/// frame rate grows.
pub proof fn lemma_estimate_monotone(w1: u32, h1: u32, d1: u64, f1: u32, w2: u32, h2: u32, d2: u64, f2: u32)
    requires
        w1 <= w2,
        h1 <= h2,
        d1 <= d2,
        f1 <= f2,
    ensures
        gif_estimate(w1, h1, d1, f1) <= gif_estimate(w2, h2, d2, f2),
{
    let c = bytes_per_pixel_frame();
    let ds1 = from_integer(d1 as int);
    let ds2 = from_integer(d2 as int);
    lemma_from_integer_monotone(d1 as int, d2 as int);
    lemma_nearest_bounds(d1 as int, 1, 0);
    lemma_nearest_bounds(d2 as int, 1, 0);
    let ps1 = quotient(ds1, 1000);
    let ps2 = quotient(ds2, 1000);
    lemma_quotient_monotone(ds1, ds2, 1000);
    lemma_nearest_bounds(ds1.0, 1000, ds1.1);
    lemma_nearest_bounds(ds2.0, 1000, ds2.1);
    let r1 = from_integer(f1 as int);
    let r2 = from_integer(f2 as int);
    lemma_from_integer_monotone(f1 as int, f2 as int);
    lemma_nearest_bounds(f1 as int, 1, 0);
    lemma_nearest_bounds(f2 as int, 1, 0);
    let fr1 = product(ps1, r1);
    let fr2 = product(ps2, r2);
    lemma_product_monotone(ps1, ps2, r1, r2);
    let ww1 = from_integer(w1 as int);
    let ww2 = from_integer(w2 as int);
    let hh1 = from_integer(h1 as int);
    let hh2 = from_integer(h2 as int);
    lemma_from_integer_monotone(w1 as int, w2 as int);
    lemma_from_integer_monotone(h1 as int, h2 as int);
    lemma_nearest_bounds(w1 as int, 1, 0);
    lemma_nearest_bounds(w2 as int, 1, 0);
    lemma_nearest_bounds(h1 as int, 1, 0);
    lemma_nearest_bounds(h2 as int, 1, 0);
    let px1 = product(ww1, hh1);
    let px2 = product(ww2, hh2);
    lemma_product_monotone(ww1, ww2, hh1, hh2);
    assert forall|x: (int, int), y: (int, int)| x.0 >= 0 && y.0 >= 0 implies #[trigger] product(x, y).0 >= 0 by {
        assert(x.0 * y.0 >= 0) by (nonlinear_arith)
            requires x.0 >= 0, y.0 >= 0;
        lemma_nearest_bounds(x.0 * y.0, 1, x.1 + y.1);
    }
    let t1 = product(px1, fr1);
    let t2 = product(px2, fr2);
    lemma_product_monotone(px1, px2, fr1, fr2);
    assert(value_le(c, c));
    lemma_product_monotone(t1, t2, c, c);
    let e1 = product(t1, c);
    let e2 = product(t2, c);
    assert(t1.0 * c.0 >= 0 && t2.0 * c.0 >= 0) by (nonlinear_arith)
        requires t1.0 >= 0, t2.0 >= 0, c.0 >= 0;
    lemma_nearest_bounds(t1.0 * c.0, 1, t1.1 + c.1);
    lemma_nearest_bounds(t2.0 * c.0, 1, t2.1 + c.1);
    lemma_to_u64_monotone(e1, e2);
}

/// The presentation time of frame `frame_index` of an export that starts at
/// `trim_start_ms` and runs at `frame_rate` frames a second.
pub fn frame_timestamp_ms(trim_start_ms: u64, frame_index: u64, frame_rate: u32) -> (t: u64)
    requires
        frame_rate > 0,
        frame_index * 1000 <= u64::MAX,
        trim_start_ms + (frame_index * 1000) / (frame_rate as int) <= u64::MAX,
    ensures
        t == trim_start_ms + (frame_index * 1000) / (frame_rate as int),
{
    trim_start_ms + frame_index * 1000 / frame_rate as u64
}

/// The value of a sequence of ASCII decimal digits.
pub open spec fn digits_value(s: Seq<u8>) -> nat
    decreases s.len(),
{
    if s.len() == 0 {
        0
    } else {
        digits_value(s.drop_last()) * 10 + (s.last() - 48) as nat
    }
}

pub open spec fn is_digit(b: u8) -> bool {
    48 <= b <= 57
}

pub open spec fn all_digits(s: Seq<u8>) -> bool {
    forall|i: int| 0 <= i < s.len() ==> is_digit(#[trigger] s[i])
}

/// The digits of an unsigned decimal number: one leading `+` is dropped
/// when something follows it.
pub open spec fn unsigned_digits(s: Seq<u8>) -> Seq<u8> {
    if s.len() > 1 && s[0] == 43 {
        s.drop_first()
    } else {
        s
    }
}

/// How `u32::from_str` reads a decimal number from bytes.
pub open spec fn parse_u32_spec(s: Seq<u8>) -> Option<u32> {
    let d = unsigned_digits(s);
    if d.len() > 0 && all_digits(d) && digits_value(d) <= u32::MAX {
        Some(digits_value(d) as u32)
    } else {
        None
    }
}

/// The position of the first `x` byte, if any.
pub open spec fn first_x(s: Seq<u8>) -> Option<int> {
    if exists|i: int| 0 <= i < s.len() && s[i] == 120 {
        Some(choose|i: int| 0 <= i < s.len() && s[i] == 120 && forall|j: int| 0 <= j < i ==> s[j] != 120)
    } else {
        None
    }
}

/// The dimensions that a probe line `WIDTHxHEIGHT` states, when both
/// numbers are valid and positive.
pub open spec fn dimensions_spec(s: Seq<u8>) -> Option<(u32, u32)> {
    match first_x(s) {
        None => None,
        Some(i) => match (parse_u32_spec(s.subrange(0, i)), parse_u32_spec(s.subrange(i + 1, s.len() as int))) {
            (Some(w), Some(h)) => if w != 0 && h != 0 { Some((w, h)) } else { None },
            _ => None,
        },
    }
}

proof fn lemma_digits_value_monotone(s: Seq<u8>, j: int, k: int)
    requires
        all_digits(s),
        0 <= j <= k <= s.len(),
    ensures
        digits_value(s.subrange(0, j)) <= digits_value(s.subrange(0, k)),
    decreases k - j,
{
    if j < k {
        lemma_digits_value_monotone(s, j, k - 1);
        assert(s.subrange(0, k).drop_last() =~= s.subrange(0, k - 1));
    }
}

/// Parses the bytes `bytes[start..end]` as `u32::from_str` does.
fn parse_u32_range(bytes: &[u8], start: usize, end: usize) -> (r: Option<u32>)
    requires
        start <= end <= bytes@.len(),
    ensures
        r == parse_u32_spec(bytes@.subrange(start as int, end as int)),
{
    let ghost s = bytes@.subrange(start as int, end as int);
    let mut i = start;
    if end - start > 1 && bytes[start] == 43 {
        i = start + 1;
    }
    let ghost d = bytes@.subrange(i as int, end as int);
    assert(d =~= unsigned_digits(s));
    if i == end {
        return None;
    }
    let mut value: u64 = 0;
    let mut k = i;
    while k < end
        invariant
            i <= k <= end <= bytes@.len(),
            d == bytes@.subrange(i as int, end as int),
            d == unsigned_digits(s),
            s == bytes@.subrange(start as int, end as int),
            d.len() > 0,
            all_digits(d.subrange(0, k - i)),
            value == digits_value(d.subrange(0, k - i)),
            value <= u32::MAX,
        decreases end - k,
    {
        let b = bytes[k];
        if b < 48 || b > 57 {
            assert(d[k - i] == b);
            assert(!is_digit(d[k - i]));
            assert(!all_digits(d));
            return None;
        }
        let ghost next = d.subrange(0, k + 1 - i);
        assert(next.drop_last() =~= d.subrange(0, k - i));
        assert(next.last() == b);
        assert(all_digits(next)) by {
            assert forall|j: int| 0 <= j < next.len() implies is_digit(#[trigger] next[j]) by {
                if j < next.len() - 1 {
                    assert(next[j] == d.subrange(0, k - i)[j]);
                }
            }
        }
        value = value * 10 + (b - 48) as u64;
        k = k + 1;
        if value > u32::MAX as u64 {
            proof {
                if all_digits(d) {
                    lemma_digits_value_monotone(d, k - i, d.len() as int);
                    assert(d.subrange(0, d.len() as int) =~= d);
                }
            }
            return None;
        }
    }
    assert(d.subrange(0, k - i) =~= d);
    Some(value as u32)
}

/// Parses the `WIDTHxHEIGHT` line that the media probe prints.
pub fn parse_dimensions(value: &str) -> (r: Result<(u32, u32), ExportError>)
    ensures
        match dimensions_spec(value.spec_bytes()) {
            Some(dims) => r == Ok::<(u32, u32), ExportError>(dims),
            None => r matches Err(ExportError::InvalidDimensions),
        },
{
    let bytes = value.as_bytes();
    let ghost s = bytes@;
    let mut i: usize = 0;
    while i < bytes.len()
        invariant
            i <= bytes@.len(),
            s == bytes@,
            forall|j: int| 0 <= j < i ==> s[j] != 120,
        ensures
            i <= bytes@.len(),
            i < bytes@.len() ==> s[i as int] == 120,
            forall|j: int| 0 <= j < i ==> s[j] != 120,
        decreases bytes@.len() - i,
    {
        if bytes[i] == 120 {
            break;
        }
        i = i + 1;
    }
    if i == bytes.len() {
        assert(!(exists|j: int| 0 <= j < s.len() && s[j] == 120));
        return Err(ExportError::InvalidDimensions);
    }
    proof {
        assert(s[i as int] == 120);
        let c = choose|k: int| 0 <= k < s.len() && s[k] == 120 && forall|j: int| 0 <= j < k ==> s[j] != 120;
        assert(c == i) by {
            if c < i { assert(s[c] != 120); }
            if c > i { assert(s[i as int] != 120); }
        }
    }
    let width = match parse_u32_range(bytes, 0, i) {
        Some(w) => w,
        None => return Err(ExportError::InvalidDimensions),
    };
    let height = match parse_u32_range(bytes, i + 1, bytes.len()) {
        Some(h) => h,
        None => return Err(ExportError::InvalidDimensions),
    };
    if width == 0 || height == 0 {
        return Err(ExportError::InvalidDimensions);
    }
    Ok((width, height))
}

} // verus!
