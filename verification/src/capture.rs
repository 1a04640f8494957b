//! Recording-side data types and the pure computations of the capture
//! pipeline: quality settings, the bitrate heuristic, pause bookkeeping,
//! and the pixel-buffer reshaping done on captured frames.

use vstd::prelude::*;
use vstd::arithmetic::div_mod::{lemma_fundamental_div_mod_converse, lemma_multiply_divide_lt};
use vstd::arithmetic::mul::lemma_mul_inequality;
use vstd::slice::slice_to_vec;

verus! {

/// One JPEG preview frame handed to the UI, as a data URL.
#[derive(Debug, Clone)]
pub struct NativePreviewFrame {
    pub data_url: String,
    pub width: u32,
    pub height: u32,
    pub sequence: u64,
}

/// Encoder configuration for a recording.
#[derive(Clone, Debug)]
pub struct CaptureEncoderSettings {
    pub output_path: String,
    pub width: u32,
    pub height: u32,
    pub target_fps: u32,
    pub quality: RecordingQuality,
}

/// Recording quality preset.
#[derive(Clone, Copy, Debug, PartialEq, Eq, Structural)]
pub enum RecordingQuality {
    Low,
    Balanced,
    High,
}

/// Recording quality as requested over the wire.
#[derive(Debug, Clone, Copy, PartialEq, Eq, Structural)]
pub enum RecordingQualityOption {
    Low,
    Balanced,
    High,
}

impl Default for RecordingQualityOption {
    fn default() -> (r: Self)
        ensures
            r == RecordingQualityOption::Balanced,
    {
        RecordingQualityOption::Balanced
    }
}

impl RecordingQualityOption {
    /// Maps the requested option onto the recorder's quality preset.
    pub fn as_recorder_quality(self) -> (r: RecordingQuality)
        ensures
            r == match self {
                RecordingQualityOption::Low => RecordingQuality::Low,
                RecordingQualityOption::Balanced => RecordingQuality::Balanced,
                RecordingQualityOption::High => RecordingQuality::High,
            },
    {
        match self {
            RecordingQualityOption::Low => RecordingQuality::Low,
            RecordingQualityOption::Balanced => RecordingQuality::Balanced,
            RecordingQualityOption::High => RecordingQuality::High,
        }
    }
}

/// How clicks arm the automatic zoom.
#[derive(Debug, Clone, Copy, PartialEq, Eq, Structural)]
pub enum AutoZoomTriggerMode {
    SingleClick,
    MultiClickWindow,
    CtrlClick,
}

impl Default for AutoZoomTriggerMode {
    fn default() -> (r: Self)
        ensures
            r == AutoZoomTriggerMode::SingleClick,
    {
        AutoZoomTriggerMode::SingleClick
    }
}

/// Which audio sources a recording captures.
#[derive(Debug, Clone, Copy, PartialEq, Eq, Structural)]
pub enum RecordingAudioMode {
    NoAudio,
    SystemOnly,
    MicrophoneOnly,
    MicrophoneAndSystem,
}

impl Default for RecordingAudioMode {
    fn default() -> (r: Self)
        ensures
            r == RecordingAudioMode::NoAudio,
    {
        RecordingAudioMode::NoAudio
    }
}

/// Options accepted when a recording starts; absent fields fall back to
/// defaults.
#[derive(Debug, Clone)]
pub struct StartRecordingOptions {
    pub auto_zoom_trigger_mode: Option<AutoZoomTriggerMode>,
    pub quality: Option<RecordingQualityOption>,
    pub target_fps: Option<u32>,
    pub audio_capture_mode: Option<RecordingAudioMode>,
    pub microphone_device: Option<String>,
}

impl Default for StartRecordingOptions {
    fn default() -> (r: Self)
        ensures
            r.auto_zoom_trigger_mode is None,
            r.quality is None,
            r.target_fps is None,
            r.audio_capture_mode is None,
            r.microphone_device is None,
    {
        StartRecordingOptions {
            auto_zoom_trigger_mode: None,
            quality: None,
            target_fps: None,
            audio_capture_mode: None,
            microphone_device: None,
        }
    }
}

/// Rounds a recording frame rate to one of the two supported capture rates.
pub fn sanitize_recording_fps(raw_fps: u32) -> (r: u32)
    ensures
        r == if raw_fps >= 45 { 60u32 } else { 30u32 },
{
    if raw_fps >= 45 {
        60
    } else {
        30
    }
}

/// Bitrate scale of a quality preset, in ten-thousandths of the base
/// bits-per-pixel factor (the base factor itself is `1100`, i.e. `0.11`
/// bits per pixel per second).
pub open spec fn quality_scale_e4(q: RecordingQuality) -> int {
    match q {
        RecordingQuality::Low => 825,
        RecordingQuality::Balanced => 1100,
        RecordingQuality::High => 1485,
    }
}

/// The H.264 bitrate heuristic: `0.11` bits per pixel per second, scaled
/// by the quality preset, rounded to the nearest bit, and clamped to
/// `[3, 60]` Mbit/s.
pub open spec fn spec_h264_bitrate(width: int, height: int, fps: int, q: RecordingQuality) -> int {
    let safe_fps = if fps >= 1 {
        fps
    } else {
        1
    };
    let raw = (width * height * safe_fps * quality_scale_e4(q) + 5000) / 10000;
    if raw < 3_000_000 {
        3_000_000
    } else if raw > 60_000_000 {
        60_000_000
    } else {
        raw
    }
}

/// Estimates an H.264 bitrate for screen content at the given geometry,
/// frame rate and quality preset.
pub fn estimate_h264_bitrate(width: u32, height: u32, fps: u32, quality: RecordingQuality) -> (r:
    u32)
    ensures
        r == spec_h264_bitrate(width as int, height as int, fps as int, quality),
{
    let safe_fps: u32 = if fps >= 1 {
        fps
    } else {
        1
    };
    let scale: u128 = match quality {
        RecordingQuality::Low => 825,
        RecordingQuality::Balanced => 1100,
        RecordingQuality::High => 1485,
    };
    proof {
        assert((width as int) * (height as int) < 0x1_0000_0000_0000_0000 && (width as int) * (
        height as int) >= 0) by (nonlinear_arith)
            requires
                0 <= (width as int) && (width as int) < 0x1_0000_0000,
                0 <= (height as int) && (height as int) < 0x1_0000_0000,
        ;
        assert((width as int) * (height as int) * (safe_fps as int)
            < 0x1_0000_0000_0000_0000_0000_0000 && (width as int) * (height as int) * (
        safe_fps as int) >= 0) by (nonlinear_arith)
            requires
                0 <= (width as int) * (height as int) && (width as int) * (height as int)
                    < 0x1_0000_0000_0000_0000,
                0 <= (safe_fps as int) && (safe_fps as int) < 0x1_0000_0000,
        ;
    }
    let pixels: u128 = (width as u128) * (height as u128) * (safe_fps as u128);
    proof {
        assert((pixels as int) * (scale as int) + 5000
            < 0x1_0000_0000_0000_0000_0000_0000_0000_0000 && (pixels as int) * (scale as int) >= 0)
            by (nonlinear_arith)
            requires
                0 <= (pixels as int) && (pixels as int) < 0x1_0000_0000_0000_0000_0000_0000,
                0 <= (scale as int) && (scale as int) <= 1485,
        ;
    }
    let raw: u128 = (pixels * scale + 5000) / 10000;
    if raw < 3_000_000 {
        3_000_000
    } else if raw > 60_000_000 {
        60_000_000
    } else {
        raw as u32
    }
}

/// The sum of the lengths of the pause ranges, each end clamped below by
/// its start, the total saturating at the integer bound.
pub open spec fn spec_total_pause(s: Seq<(u64, u64)>) -> int
    decreases s.len(),
{
    if s.len() == 0 {
        0
    } else {
        spec_total_pause(s.drop_last()) + pause_len(s.last())
    }
}

/// The length of one pause range; a range that ends before it starts
/// counts as zero.
pub open spec fn pause_len(p: (u64, u64)) -> int {
    if p.1 >= p.0 {
        p.1 - p.0
    } else {
        0
    }
}

/// Total paused time over a list of absolute pause ranges.
pub fn total_pause_duration_ms(pause_ranges_ms: &Vec<(u64, u64)>) -> (r: u64)
    ensures
        r == if spec_total_pause(pause_ranges_ms@) <= u64::MAX {
            spec_total_pause(pause_ranges_ms@)
        } else {
            u64::MAX as int
        },
{
    let mut acc: u64 = 0;
    let mut i: usize = 0;
    proof {
        lemma_total_pause_nonneg(pause_ranges_ms@.subrange(0, 0));
    }
    while i < pause_ranges_ms.len()
        invariant
            0 <= i <= pause_ranges_ms@.len(),
            acc == if spec_total_pause(pause_ranges_ms@.subrange(0, i as int)) <= u64::MAX {
                spec_total_pause(pause_ranges_ms@.subrange(0, i as int))
            } else {
                u64::MAX as int
            },
        decreases pause_ranges_ms@.len() - i,
    {
        let (start, end): (u64, u64) = pause_ranges_ms[i];
        let d: u64 = if end >= start {
            end - start
        } else {
            0
        };
        let next: u64 = if acc > u64::MAX - d {
            u64::MAX
        } else {
            acc + d
        };
        proof {
            let pre = pause_ranges_ms@.subrange(0, i as int);
            let cur = pause_ranges_ms@.subrange(0, i + 1);
            assert(cur.drop_last() =~= pre);
            assert(cur.last() == pause_ranges_ms@[i as int]);
            lemma_total_pause_nonneg(pre);
        }
        acc = next;
        i = i + 1;
    }
    proof {
        assert(pause_ranges_ms@.subrange(0, pause_ranges_ms@.len() as int) =~= pause_ranges_ms@);
    }
    acc
}

/// The total pause length is never negative.
proof fn lemma_total_pause_nonneg(s: Seq<(u64, u64)>)
    ensures
        spec_total_pause(s) >= 0,
    decreases s.len(),
{
    if s.len() > 0 {
        lemma_total_pause_nonneg(s.drop_last());
    }
}

/// Whether a buffer of `len` bytes is too short for a `width` by `height`
/// four-byte-per-pixel frame.
fn len_below_area4(len: usize, width: usize, height: usize) -> (r: bool)
    requires
        width >= 1,
        height >= 1,
    ensures
        r == ((len as int) < (width as int) * (height as int) * 4),
{
    let max: usize = usize::MAX;
    if height > max / width {
        proof {
            vstd::arithmetic::div_mod::lemma_fundamental_div_mod(max as int, width as int);
            assert((width as int) * (height as int) > max as int) by (nonlinear_arith)
                requires
                    (height as int) >= (max as int) / (width as int) + 1,
                    (max as int) == (width as int) * ((max as int) / (width as int)) + (
                    max as int) % (width as int),
                    0 <= (max as int) % (width as int) < (width as int),
                    (width as int) >= 1,
            ;
            assert((width as int) * (height as int) * 4 >= (width as int) * (height as int))
                by (nonlinear_arith)
                requires
                    (width as int) * (height as int) >= 0,
            ;
        }
        true
    } else {
        proof {
            vstd::arithmetic::div_mod::lemma_fundamental_div_mod(max as int, width as int);
            assert((width as int) * (height as int) <= max as int) by (nonlinear_arith)
                requires
                    0 <= (height as int) <= (max as int) / (width as int),
                    (max as int) == (width as int) * ((max as int) / (width as int)) + (
                    max as int) % (width as int),
                    0 <= (max as int) % (width as int),
                    (width as int) >= 1,
            ;
        }
        let pc: usize = width * height;
        if pc > max / 4 {
            proof {
                vstd::arithmetic::div_mod::lemma_fundamental_div_mod(max as int, 4);
                assert((pc as int) * 4 > max as int) by (nonlinear_arith)
                    requires
                        (pc as int) >= (max as int) / 4 + 1,
                        (max as int) == 4 * ((max as int) / 4) + (max as int) % 4,
                        0 <= (max as int) % 4 < 4,
                ;
                assert((width as int) * (height as int) * 4 == (pc as int) * 4);
            }
            true
        } else {
            proof {
                vstd::arithmetic::div_mod::lemma_fundamental_div_mod(max as int, 4);
                assert((pc as int) * 4 <= max as int) by (nonlinear_arith)
                    requires
                        0 <= (pc as int) <= (max as int) / 4,
                        (max as int) == 4 * ((max as int) / 4) + (max as int) % 4,
                        0 <= (max as int) % 4,
                ;
            }
            let expected: usize = pc * 4;
            len < expected
        }
    }
}

/// A captured top-to-bottom BGRA frame with its rows flipped to the
/// bottom-to-top order: byte `row * w * 4 + o` of the result is byte
/// `(h - 1 - row) * w * 4 + o` of the source.
pub open spec fn flipped_rows(b: Seq<u8>, w: int, h: int) -> Seq<u8> {
    Seq::new((w * 4 * h) as nat, |i: int| b[(h - 1 - i / (w * 4)) * (w * 4) + i % (w * 4)])
}

/// Reorders a top-to-bottom BGRA pixel buffer into bottom-to-top row
/// order, as the frame encoder expects. A buffer that is empty or too
/// short for the stated geometry is returned unchanged.
pub fn normalize_frame_for_encoder(buffer: &[u8], width: usize, height: usize) -> (r: Vec<u8>)
    ensures
        (width * height == 0 || buffer@.len() < width * height * 4) ==> r@ == buffer@,
        (width * height > 0 && buffer@.len() >= width * height * 4) ==> r@ == flipped_rows(
            buffer@,
            width as int,
            height as int,
        ),
{
    let len: usize = buffer.len();
    if width == 0 || height == 0 {
        proof {
            assert(width * height == 0) by (nonlinear_arith)
                requires
                    width == 0 || height == 0,
            ;
        }
        return slice_to_vec(buffer);
    }
    if len_below_area4(len, width, height) {
        proof {
            assert((width as int) * (height as int) * 4 == width * height * 4) by (nonlinear_arith);
        }
        return slice_to_vec(buffer);
    }
    proof {
        assert(width * height > 0 && (width as int) * (height as int) * 4 == width * height * 4
            && width * 4 <= width * height * 4) by (nonlinear_arith)
            requires
                width >= 1,
                height >= 1,
        ;
    }
    let row_bytes: usize = width * 4;
    let ghost rb: int = row_bytes as int;
    let ghost hh: int = height as int;
    let mut out: Vec<u8> = Vec::new();
    let mut row: usize = 0;
    proof {
        assert(out@ =~= flipped_rows(buffer@, width as int, hh).subrange(0, 0));
        assert(rb * hh == hh * rb && hh * rb == (width as int) * (height as int) * 4)
            by (nonlinear_arith)
            requires
                rb == (width as int) * 4,
                hh == height as int,
        ;
    }
    while row < height
        invariant
            rb == (width as int) * 4,
            rb == row_bytes as int,
            hh == height as int,
            buffer@.len() >= hh * rb,
            buffer@.len() <= usize::MAX,
            rb >= 4,
            hh >= 1,
            0 <= row <= height,
            out@ == flipped_rows(buffer@, width as int, hh).subrange(0, row * rb),
        decreases height - row,
    {
        let src_row: usize = height - 1 - row;
        proof {
            lemma_mul_inequality(row as int + 1, hh, rb);
            assert((row + 1) * rb == row * rb + rb && (src_row + 1) * rb == src_row * rb + rb)
                by (nonlinear_arith);
            lemma_mul_inequality(src_row as int + 1, hh, rb);
        }
        let mut o: usize = 0;
        while o < row_bytes
            invariant
                rb == (width as int) * 4,
                rb == row_bytes as int,
                hh == height as int,
                buffer@.len() >= hh * rb,
                buffer@.len() <= usize::MAX,
                rb >= 4,
                0 <= row < height,
                src_row == hh - 1 - row,
                0 <= o <= row_bytes,
                row * rb + rb <= hh * rb,
                src_row * rb + rb <= hh * rb,
                out@ == flipped_rows(buffer@, width as int, hh).subrange(0, row * rb + o),
            decreases row_bytes - o,
        {
            let b: u8 = buffer[src_row * row_bytes + o];
            proof {
                let k = row * rb + o;
                lemma_fundamental_div_mod_converse(k, rb, row as int, o as int);
                assert(flipped_rows(buffer@, width as int, hh)[k] == buffer@[(hh - 1 - row) * rb
                    + o]);
                assert(flipped_rows(buffer@, width as int, hh).subrange(0, k).push(
                    buffer@[src_row * rb + o],
                ) =~= flipped_rows(buffer@, width as int, hh).subrange(0, k + 1));
            }
            out.push(b);
            o = o + 1;
        }
        row = row + 1;
        proof {
            assert(row * rb == (row - 1) * rb + rb) by (nonlinear_arith);
        }
    }
    proof {
        assert((width as int) * 4 * hh == hh * rb) by (nonlinear_arith)
            requires
                rb == (width as int) * 4,
        ;
        assert(flipped_rows(buffer@, width as int, hh).subrange(
            0,
            hh * rb,
        ) =~= flipped_rows(buffer@, width as int, hh));
        assert(width * height * 4 == hh * rb) by (nonlinear_arith)
            requires
                rb == (width as int) * 4,
                hh == height as int,
        ;
    }
    out
}


/// A BGRA buffer downscaled by nearest-neighbour sampling to `ow` by `oh`
/// pixels: each output pixel `(x, y)` copies source pixel
/// `(x * w / ow, y * h / oh)`.
pub open spec fn downscaled(b: Seq<u8>, w: int, h: int, ow: int, oh: int) -> Seq<u8> {
    Seq::new(
        (ow * 4 * oh) as nat,
        |i: int|
            b[(((i / (ow * 4)) * h / oh) * w + ((i % (ow * 4)) / 4) * w / ow) * 4 + (i % (ow * 4))
                % 4],
    )
}

/// Nearest-neighbour downscale of a BGRA frame to at most `max_width`
/// columns, keeping the aspect ratio. A frame already narrow enough, a
/// degenerate geometry, or a buffer shorter than the stated geometry is
/// returned unchanged with its original size.
/// Nearest-neighbour downscale of a BGRA frame to at most `max_width`
/// columns, keeping the aspect ratio. A frame already narrow enough, a
/// degenerate geometry, or a buffer shorter than the stated geometry is
/// returned unchanged with its original size.
pub fn downscale_bgra_for_preview(source: &[u8], width: u32, height: u32, max_width: u32) -> (r: (
    Vec<u8>,
    u32,
    u32,
))
    ensures
        (width == 0 || height == 0 || max_width == 0 || width <= max_width || source@.len() < (
        width as int) * (height as int) * 4) ==> (r.0@ == source@ && r.1 == width && r.2 == height),
        !(width == 0 || height == 0 || max_width == 0 || width <= max_width || source@.len() < (
        width as int) * (height as int) * 4) ==> {
            let oh = (height as int) * (max_width as int) / (width as int);
            &&& r.1 == max_width
            &&& r.2 == if oh < 1 {
                1int
            } else {
                oh
            }
            &&& r.0@ == downscaled(
                source@,
                width as int,
                height as int,
                max_width as int,
                r.2 as int,
            )
        },
{
    if width == 0 || height == 0 || max_width == 0 || width <= max_width {
        return (slice_to_vec(source), width, height);
    }
    let expected_ok: bool = {
        proof {
            assert(0 <= (width as int) * (height as int) && (width as int) * (height as int) * 4
                < 0x1_0000_0000_0000_0000_0000) by (nonlinear_arith)
                requires
                    0 <= (width as int) && (width as int) < 0x1_0000_0000,
                    0 <= (height as int) && (height as int) < 0x1_0000_0000,
            ;
        }
        (source.len() as u128) >= (width as u128) * (height as u128) * 4
    };
    if !expected_ok {
        return (slice_to_vec(source), width, height);
    }
    proof {
        assert((height as int) * (max_width as int) < (width as int) * 0x1_0000_0000 && 0 <= (
        height as int) * (max_width as int) && (height as int) * (max_width as int)
            < 0x1_0000_0000_0000_0000) by (nonlinear_arith)
            requires
                0 < (height as int) < 0x1_0000_0000,
                0 < (max_width as int) < (width as int) < 0x1_0000_0000,
        ;
        lemma_multiply_divide_lt(
            (height as int) * (max_width as int),
            width as int,
            0x1_0000_0000,
        );
        assert((height as int) * (max_width as int) <= (width as int) * (height as int))
            by (nonlinear_arith)
            requires
                0 < (max_width as int) < (width as int),
                0 < (height as int),
        ;
        vstd::arithmetic::div_mod::lemma_multiply_divide_le(
            (height as int) * (max_width as int),
            width as int,
            height as int,
        );
    }
    let out_height_raw: u64 = ((height as u64) * (max_width as u64)) / (width as u64);
    let out_height: u32 = if out_height_raw < 1 {
        1
    } else {
        out_height_raw as u32
    };
    let ow: u64 = max_width as u64;
    let oh: u64 = out_height as u64;
    let w: u64 = width as u64;
    let h: u64 = height as u64;
    let ghost ow4: int = (ow as int) * 4;
    let mut out: Vec<u8> = Vec::new();
    let ghost target: Seq<u8> = downscaled(source@, w as int, h as int, ow as int, oh as int);
    proof {
        assert(out@ =~= target.subrange(0, 0));
        assert((width as int) * (height as int) * 4 == ((w as int) * (h as int)) * 4)
            by (nonlinear_arith)
            requires
                w == width as int && h == height as int,
        ;
    }
    let mut y: u64 = 0;
    while y < oh
        invariant
            ow4 == (ow as int) * 4,
            ow >= 1 && oh >= 1 && w >= 1 && h >= 1,
            ow < w,
            oh <= h,
            oh == if (h as int) * (ow as int) / (w as int) < 1 {
                1int
            } else {
                (h as int) * (ow as int) / (w as int)
            },
            w < 0x1_0000_0000 && h < 0x1_0000_0000 && ow < 0x1_0000_0000 && oh < 0x1_0000_0000,
            source@.len() >= ((w as int) * (h as int)) * 4,
            source@.len() <= usize::MAX,
            target == downscaled(source@, w as int, h as int, ow as int, oh as int),
            0 <= y <= oh,
            out@ == target.subrange(0, (y as int) * ow4),
        decreases oh - y,
    {
        proof {
            assert((y as int) * (h as int) < (oh as int) * (h as int)) by (nonlinear_arith)
                requires
                    0 <= (y as int) < (oh as int),
                    (h as int) > 0,
            ;
            assert((oh as int) * (h as int) < 0x1_0000_0000_0000_0000) by (nonlinear_arith)
                requires
                    0 <= (oh as int) < 0x1_0000_0000,
                    0 <= (h as int) < 0x1_0000_0000,
            ;
            lemma_multiply_divide_lt((y as int) * (h as int), oh as int, h as int);
            lemma_mul_inequality(y as int + 1, oh as int, ow4);
            assert((y as int + 1) * ow4 == (y as int) * ow4 + ow4) by (nonlinear_arith);
        }
        let src_y: u64 = y * h / oh;
        let mut x: u64 = 0;
        while x < ow
            invariant
                ow4 == (ow as int) * 4,
                ow >= 1 && oh >= 1 && w >= 1 && h >= 1,
                ow < w,
                oh <= h,
                w < 0x1_0000_0000 && h < 0x1_0000_0000 && ow < 0x1_0000_0000 && oh
                    < 0x1_0000_0000,
                source@.len() >= ((w as int) * (h as int)) * 4,
                source@.len() <= usize::MAX,
                target == downscaled(source@, w as int, h as int, ow as int, oh as int),
                0 <= y < oh,
                src_y == (y as int) * (h as int) / (oh as int),
                src_y < h,
                (y as int) * ow4 + ow4 <= (oh as int) * ow4,
                0 <= x <= ow,
                out@ == target.subrange(0, (y as int) * ow4 + (x as int) * 4),
            decreases ow - x,
        {
            proof {
                assert((x as int) * (w as int) < (ow as int) * (w as int)) by (nonlinear_arith)
                    requires
                        0 <= (x as int) < (ow as int),
                        (w as int) > 0,
                ;
                assert((ow as int) * (w as int) < 0x1_0000_0000_0000_0000) by (nonlinear_arith)
                    requires
                        0 <= (ow as int) < 0x1_0000_0000,
                        0 <= (w as int) < 0x1_0000_0000,
                ;
                lemma_multiply_divide_lt((x as int) * (w as int), ow as int, w as int);
            }
            let src_x: u64 = x * w / ow;
            proof {
                assert((src_y as int) * (w as int) + (src_x as int) + 1 <= (h as int) * (w as int))
                    by (nonlinear_arith)
                    requires
                        0 <= (src_y as int) <= (h as int) - 1,
                        0 <= (src_x as int) <= (w as int) - 1,
                        (w as int) >= 1,
                ;
                assert(((h as int) * (w as int)) * 4 == ((w as int) * (h as int)) * 4)
                    by (nonlinear_arith);
                assert(((src_y as int) * (w as int) + (src_x as int)) * 4 + 4 <= ((h as int) * (
                w as int)) * 4) by (nonlinear_arith)
                    requires
                        (src_y as int) * (w as int) + (src_x as int) + 1 <= (h as int) * (
                        w as int),
                ;
            }
            let src_base: u64 = (src_y * w + src_x) * 4;
            let mut b: u64 = 0;
            while b < 4
                invariant
                    ow4 == (ow as int) * 4,
                    ow >= 1 && oh >= 1 && w >= 1 && h >= 1,
                    ow < w,
                    oh <= h,
                    w < 0x1_0000_0000 && h < 0x1_0000_0000 && ow < 0x1_0000_0000 && oh
                        < 0x1_0000_0000,
                    source@.len() >= ((w as int) * (h as int)) * 4,
                source@.len() <= usize::MAX,
                    target == downscaled(source@, w as int, h as int, ow as int, oh as int),
                    0 <= y < oh,
                    0 <= x < ow,
                    src_y == (y as int) * (h as int) / (oh as int),
                    src_x == (x as int) * (w as int) / (ow as int),
                    src_y < h,
                    src_x < w,
                    src_base == ((src_y as int) * (w as int) + (src_x as int)) * 4,
                    src_base + 4 <= ((w as int) * (h as int)) * 4,
                    (y as int) * ow4 + ow4 <= (oh as int) * ow4,
                    0 <= b <= 4,
                    out@ == target.subrange(0, (y as int) * ow4 + (x as int) * 4 + (b as int)),
                decreases 4 - b,
            {
                let idx: u64 = src_base + b;
                let v: u8 = source[idx as usize];
                proof {
                    let k = (y as int) * ow4 + (x as int) * 4 + (b as int);
                    assert(0 <= (x as int) * 4 + (b as int) && (x as int) * 4 + (b as int) < ow4)
                        by (nonlinear_arith)
                        requires
                            0 <= (x as int) < (ow as int),
                            0 <= (b as int) < 4,
                            ow4 == (ow as int) * 4,
                    ;
                    lemma_fundamental_div_mod_converse(k, ow4, y as int, (x as int) * 4 + (
                    b as int));
                    lemma_fundamental_div_mod_converse((x as int) * 4 + (b as int), 4, x as int, b as int);
                    assert(k < (oh as int) * ow4);
                    assert((oh as int) * ow4 == (ow as int) * 4 * (oh as int)) by (nonlinear_arith)
                        requires
                            ow4 == (ow as int) * 4,
                    ;
                    assert(target[k] == source@[src_base + b]);
                    assert(target.subrange(0, k).push(source@[src_base + b]) =~= target.subrange(
                        0,
                        k + 1,
                    ));
                }
                out.push(v);
                b = b + 1;
            }
            x = x + 1;
            proof {
                assert((x as int) * 4 == (x as int - 1) * 4 + 4) by (nonlinear_arith);
            }
        }
        y = y + 1;
        proof {
            assert((y as int) * ow4 == (y as int - 1) * ow4 + ow4) by (nonlinear_arith);
        }
    }
    proof {
        assert((oh as int) * ow4 == (ow as int) * 4 * (oh as int)) by (nonlinear_arith)
            requires
                ow4 == (ow as int) * 4,
        ;
        assert(target.subrange(0, (oh as int) * ow4) =~= target);
    }
    (out, max_width, out_height)
}



/// Clamped bounds of one absolute pause range inside the recording:
/// shifted to recording-relative time, the end cut at the total
/// duration.
pub open spec fn pause_covers(p: (u64, u64), start_ms: int, total: int, t: int) -> bool {
    let cs = if p.0 >= start_ms {
        p.0 - start_ms
    } else {
        0
    };
    let ce_raw = if p.1 >= start_ms {
        p.1 - start_ms
    } else {
        0
    };
    let ce = if ce_raw <= total {
        ce_raw
    } else {
        total
    };
    cs <= t < ce
}

/// Whether instant `t` falls inside any of the first `k` pause ranges,
/// after clamping.
pub open spec fn in_pause_prefix(
    ps: Seq<(u64, u64)>,
    start_ms: int,
    total: int,
    t: int,
    k: int,
) -> bool {
    exists|i: int| 0 <= i < k && pause_covers(#[trigger] ps[i], start_ms, total, t)
}

/// Whether instant `t` falls inside any pause range, after clamping.
pub open spec fn in_pause(ps: Seq<(u64, u64)>, start_ms: int, total: int, t: int) -> bool {
    in_pause_prefix(ps, start_ms, total, t, ps.len() as int)
}

/// Whether instant `t` falls inside any range of `s`.
pub open spec fn covered(s: Seq<(u64, u64)>, t: int) -> bool {
    exists|j: int| 0 <= j < s.len() && (#[trigger] s[j]).0 <= t < s[j].1
}

/// Appending a range extends coverage by exactly that range.
proof fn lemma_covered_push(s: Seq<(u64, u64)>, p: (u64, u64), t: int)
    ensures
        covered(s.push(p), t) == (covered(s, t) || (p.0 <= t < p.1)),
{
    if covered(s.push(p), t) {
        let j = choose|j: int| 0 <= j < s.push(p).len() && (#[trigger] s.push(p)[j]).0 <= t
            < s.push(p)[j].1;
        if j < s.len() {
            assert(s.push(p)[j] == s[j]);
            assert(covered(s, t));
        } else {
            assert(s.push(p)[j] == p);
        }
    }
    if covered(s, t) {
        let j = choose|j: int| 0 <= j < s.len() && (#[trigger] s[j]).0 <= t < s[j].1;
        assert(s.push(p)[j] == s[j]);
        assert(covered(s.push(p), t));
    }
    if p.0 <= t < p.1 {
        assert(s.push(p)[s.len() as int] == p);
        assert(covered(s.push(p), t));
    }
}

/// Sequences with the same multiset of ranges cover the same instants.
proof fn lemma_covered_multiset(a: Seq<(u64, u64)>, b: Seq<(u64, u64)>, t: int)
    requires
        a.to_multiset() == b.to_multiset(),
    ensures
        covered(a, t) == covered(b, t),
{
    a.to_multiset_ensures();
    b.to_multiset_ensures();
    if covered(a, t) {
        let j = choose|j: int| 0 <= j < a.len() && (#[trigger] a[j]).0 <= t < a[j].1;
        assert(a.contains(a[j]));
        assert(a.to_multiset().count(a[j]) > 0);
        assert(b.contains(a[j]));
        let k = choose|k: int| 0 <= k < b.len() && b[k] == a[j];
        assert((b[k]).0 <= t < b[k].1);
        assert(covered(b, t));
    }
    if covered(b, t) {
        let j = choose|j: int| 0 <= j < b.len() && (#[trigger] b[j]).0 <= t < b[j].1;
        assert(b.contains(b[j]));
        assert(b.to_multiset().count(b[j]) > 0);
        assert(a.contains(b[j]));
        let k = choose|k: int| 0 <= k < a.len() && a[k] == b[j];
        assert((a[k]).0 <= t < a[k].1);
        assert(covered(a, t));
    }
}

/// Sorts ranges by their start, keeping the multiset of ranges.
fn sort_ranges_by_start(ranges: &Vec<(u64, u64)>) -> (r: Vec<(u64, u64)>)
    ensures
        r@.len() == ranges@.len(),
        forall|a: int, b: int| 0 <= a <= b < r@.len() ==> (#[trigger] r@[a]).0 <= (
        #[trigger] r@[b]).0,
        r@.to_multiset() == ranges@.to_multiset(),
{
    let mut out: Vec<(u64, u64)> = Vec::new();
    let mut i: usize = 0;
    proof {
        assert(out@ =~= ranges@.subrange(0, 0));
    }
    while i < ranges.len()
        invariant
            0 <= i <= ranges@.len(),
            out@.len() == i,
            forall|a: int, b: int| 0 <= a <= b < out@.len() ==> (#[trigger] out@[a]).0 <= (
            #[trigger] out@[b]).0,
            out@.to_multiset() == ranges@.subrange(0, i as int).to_multiset(),
        decreases ranges@.len() - i,
    {
        let v: (u64, u64) = ranges[i];
        let mut j: usize = out.len();
        while j > 0 && out[j - 1].0 > v.0
            invariant
                0 <= j <= out@.len(),
                forall|a: int, b: int| 0 <= a <= b < out@.len() ==> (#[trigger] out@[a]).0 <= (
                #[trigger] out@[b]).0,
                forall|k: int| j <= k < out@.len() ==> (#[trigger] out@[k]).0 > v.0,
            decreases j,
        {
            j = j - 1;
        }
        let ghost old_out = out@;
        out.insert(j, v);
        proof {
            let a = old_out.subrange(0, j as int);
            let b = old_out.subrange(j as int, old_out.len() as int);
            assert(out@ =~= a.push(v) + b);
            assert forall|x: int, y: int| 0 <= x <= y < out@.len() implies (#[trigger] out@[x]).0
                <= (#[trigger] out@[y]).0 by {
                if x < j && y == j {
                    assert(out@[x] == old_out[x] && out@[y] == v);
                } else if x == j && y > j {
                    assert(out@[x] == v && out@[y] == old_out[y - 1]);
                } else if x < j && y > j {
                    assert(out@[x] == old_out[x] && out@[y] == old_out[y - 1]);
                } else if x > j && y > j {
                    assert(out@[x] == old_out[x - 1] && out@[y] == old_out[y - 1]);
                } else if x < j && y < j {
                    assert(out@[x] == old_out[x] && out@[y] == old_out[y]);
                } else {
                    assert(x == j && y == j);
                }
            }
            vstd::seq_lib::lemma_multiset_commutative(a.push(v), b);
            vstd::seq_lib::lemma_multiset_commutative(a, b);
            a.to_multiset_ensures();
            assert(a.push(v).to_multiset() =~= a.to_multiset().insert(v));
            assert(a + b =~= old_out);
            assert(out@.to_multiset() =~= old_out.to_multiset().insert(v));
            assert(ranges@.subrange(0, i + 1) =~= ranges@.subrange(0, i as int).push(v));
            ranges@.subrange(0, i as int).to_multiset_ensures();
            assert(ranges@.subrange(0, i + 1).to_multiset() =~= ranges@.subrange(
                0,
                i as int,
            ).to_multiset().insert(v));
            assert(out@.to_multiset() =~= ranges@.subrange(0, i + 1).to_multiset());
        }
        i = i + 1;
    }
    proof {
        assert(ranges@.subrange(0, ranges@.len() as int) =~= ranges@);
    }
    out
}

/// The active recording time left around the pauses: every instant of
/// `[0, total)` lies in exactly one kept range or one (clamped) pause,
/// never both; the kept ranges are non-empty, inside the recording, and
/// strictly ordered with the pauses between them.
#[verifier::rlimit(100)]
pub fn keep_ranges_after_pauses(start_ms: u64, end_ms: u64, pause_ranges_ms: &Vec<(u64, u64)>) -> (r:
    Vec<(u64, u64)>)
    ensures
        ({
            let total = if end_ms >= start_ms {
                end_ms - start_ms
            } else {
                0
            };
            &&& (total == 0 ==> r@.len() == 0)
            &&& forall|j: int| 0 <= j < r@.len() ==> 0 <= (#[trigger] r@[j]).0 < r@[j].1 <= total
            &&& forall|j: int| 0 <= j < r@.len() - 1 ==> (#[trigger] r@[j]).1 < r@[j + 1].0
            &&& forall|t: int|
                0 <= t < total ==> (covered(r@, t) <==> !in_pause(
                    pause_ranges_ms@,
                    start_ms as int,
                    total,
                    t,
                ))
        }),
{
    let total: u64 = if end_ms >= start_ms {
        end_ms - start_ms
    } else {
        0
    };
    if total == 0 {
        return Vec::new();
    }
    let ghost psv: Seq<(u64, u64)> = pause_ranges_ms@;
    let ghost smi: int = start_ms as int;
    let ghost toti: int = total as int;

    let mut clamped: Vec<(u64, u64)> = Vec::new();
    let mut i: usize = 0;
    while i < pause_ranges_ms.len()
        invariant
            psv == pause_ranges_ms@,
            smi == start_ms as int,
            toti == total as int,
            0 <= i <= psv.len(),
            forall|j: int|
                0 <= j < clamped@.len() ==> 0 <= (#[trigger] clamped@[j]).0 < clamped@[j].1 <= toti,
            forall|t: int| covered(clamped@, t) == in_pause_prefix(psv, smi, toti, t, i as int),
        decreases psv.len() - i,
    {
        let (ps, pe): (u64, u64) = pause_ranges_ms[i];
        let cs: u64 = if ps >= start_ms {
            ps - start_ms
        } else {
            0
        };
        let ce_raw: u64 = if pe >= start_ms {
            pe - start_ms
        } else {
            0
        };
        let ce: u64 = if ce_raw <= total {
            ce_raw
        } else {
            total
        };
        let ghost old_clamped = clamped@;
        if ce > cs {
            clamped.push((cs, ce));
        }
        proof {
            assert forall|t: int| covered(clamped@, t) == in_pause_prefix(
                psv,
                smi,
                toti,
                t,
                i + 1,
            ) by {
                if ce > cs {
                    lemma_covered_push(old_clamped, (cs, ce), t);
                }
                assert(pause_covers(psv[i as int], smi, toti, t) == (cs <= t < ce));
                if in_pause_prefix(psv, smi, toti, t, i + 1) {
                    let w = choose|w: int| 0 <= w < i + 1 && pause_covers(
                        #[trigger] psv[w],
                        smi,
                        toti,
                        t,
                    );
                    if w < i {
                        assert(in_pause_prefix(psv, smi, toti, t, i as int));
                    }
                }
                if in_pause_prefix(psv, smi, toti, t, i as int) {
                    let w = choose|w: int| 0 <= w < i && pause_covers(
                        #[trigger] psv[w],
                        smi,
                        toti,
                        t,
                    );
                    assert(in_pause_prefix(psv, smi, toti, t, i + 1));
                }
            }
        }
        i = i + 1;
    }

    if clamped.len() == 0 {
        let mut whole: Vec<(u64, u64)> = Vec::new();
        whole.push((0, total));
        proof {
            assert forall|t: int| 0 <= t < toti implies (covered(whole@, t) <==> !in_pause(
                psv,
                smi,
                toti,
                t,
            )) by {
                assert(whole@[0] == (0u64, total));
                assert(covered(whole@, t));
                assert(covered(clamped@, t) == in_pause_prefix(
                    psv,
                    smi,
                    toti,
                    t,
                    psv.len() as int,
                ));
                assert(!covered(clamped@, t));
            }
        }
        return whole;
    }

    let sorted: Vec<(u64, u64)> = sort_ranges_by_start(&clamped);
    proof {
        assert forall|t: int| covered(sorted@, t) == covered(clamped@, t) by {
            lemma_covered_multiset(sorted@, clamped@, t);
        }
        assert forall|j: int| 0 <= j < sorted@.len() implies 0 <= (#[trigger] sorted@[j]).0
            < sorted@[j].1 <= toti by {
            sorted@.to_multiset_ensures();
            clamped@.to_multiset_ensures();
            assert(sorted@.contains(sorted@[j]));
            assert(sorted@.to_multiset().count(sorted@[j]) > 0);
            assert(clamped@.contains(sorted@[j]));
            let k = choose|k: int| 0 <= k < clamped@.len() && clamped@[k] == sorted@[j];
        }
    }

    let mut merged: Vec<(u64, u64)> = Vec::new();
    let mut m: usize = 0;
    while m < sorted.len()
        invariant
            0 <= m <= sorted@.len(),
            sorted@.len() == clamped@.len(),
            forall|a: int, b: int| 0 <= a <= b < sorted@.len() ==> (#[trigger] sorted@[a]).0 <= (
            #[trigger] sorted@[b]).0,
            forall|j: int|
                0 <= j < sorted@.len() ==> 0 <= (#[trigger] sorted@[j]).0 < sorted@[j].1 <= toti,
            forall|j: int|
                0 <= j < merged@.len() ==> 0 <= (#[trigger] merged@[j]).0 < merged@[j].1 <= toti,
            forall|j: int| 0 <= j < merged@.len() - 1 ==> (#[trigger] merged@[j]).1 < merged@[j
                + 1].0,
            merged@.len() > 0 ==> m >= 1,
            m >= 1 && merged@.len() > 0 ==> merged@.last().0 <= sorted@[m - 1].0,
            forall|t: int| covered(merged@, t) == covered(sorted@.subrange(0, m as int), t),
            m >= 1 ==> merged@.len() > 0,
        decreases sorted@.len() - m,
    {
        let (ps, pe): (u64, u64) = sorted[m];
        let ghost old_merged = merged@;
        let ml: usize = merged.len();
        if ml > 0 && ps <= merged[ml - 1].1 {
            let last: (u64, u64) = merged[ml - 1];
            let new_end: u64 = if last.1 >= pe {
                last.1
            } else {
                pe
            };
            let _ = merged.pop();
            merged.push((last.0, new_end));
            proof {
                assert(merged@ =~= old_merged.drop_last().push((last.0, new_end)));
                assert forall|t: int| covered(merged@, t) == covered(
                    sorted@.subrange(0, m + 1),
                    t,
                ) by {
                    lemma_covered_push(old_merged.drop_last(), (last.0, new_end), t);
                    lemma_covered_push(old_merged.drop_last(), last, t);
                    assert(old_merged.drop_last().push(last) =~= old_merged);
                    lemma_covered_push(
                        sorted@.subrange(0, m as int),
                        sorted@[m as int],
                        t,
                    );
                    assert(sorted@.subrange(0, m as int).push(
                        sorted@[m as int],
                    ) =~= sorted@.subrange(0, m + 1));
                }
                assert forall|j: int| 0 <= j < merged@.len() - 1 implies (
                #[trigger] merged@[j]).1 < merged@[j + 1].0 by {
                    assert(merged@[j] == old_merged[j]);
                }
            }
        } else {
            merged.push((ps, pe));
            proof {
                assert forall|t: int| covered(merged@, t) == covered(
                    sorted@.subrange(0, m + 1),
                    t,
                ) by {
                    lemma_covered_push(old_merged, (ps, pe), t);
                    lemma_covered_push(
                        sorted@.subrange(0, m as int),
                        sorted@[m as int],
                        t,
                    );
                    assert(sorted@.subrange(0, m as int).push(
                        sorted@[m as int],
                    ) =~= sorted@.subrange(0, m + 1));
                }
                assert forall|j: int| 0 <= j < merged@.len() - 1 implies (
                #[trigger] merged@[j]).1 < merged@[j + 1].0 by {
                    if j < old_merged.len() - 1 {
                        assert(merged@[j] == old_merged[j] && merged@[j + 1] == old_merged[j + 1]);
                    } else {
                        assert(merged@[j] == old_merged.last() && merged@[j + 1] == (ps, pe));
                    }
                }
            }
        }
        m = m + 1;
    }
    proof {
        assert(sorted@.subrange(0, sorted@.len() as int) =~= sorted@);
    }

    let mut keep: Vec<(u64, u64)> = Vec::new();
    let mut cursor: u64 = 0;
    let mut k: usize = 0;
    while k < merged.len()
        invariant
            toti == total as int,
            total > 0,
            0 <= k <= merged@.len(),
            merged@.len() > 0,
            forall|j: int|
                0 <= j < merged@.len() ==> 0 <= (#[trigger] merged@[j]).0 < merged@[j].1 <= toti,
            forall|j: int| 0 <= j < merged@.len() - 1 ==> (#[trigger] merged@[j]).1 < merged@[j
                + 1].0,
            k == 0 ==> cursor == 0,
            k >= 1 ==> cursor == merged@[k - 1].1,
            cursor <= toti,
            forall|j: int| 0 <= j < keep@.len() ==> 0 <= (#[trigger] keep@[j]).0 < keep@[j].1
                <= toti,
            forall|j: int| 0 <= j < keep@.len() - 1 ==> (#[trigger] keep@[j]).1 < keep@[j + 1].0,
            keep@.len() > 0 ==> keep@.last().1 < cursor,
            forall|t: int| covered(keep@, t) ==> 0 <= t < cursor,
            forall|t: int|
                0 <= t < cursor ==> (covered(keep@, t) <==> !covered(merged@, t)),
        decreases merged@.len() - k,
    {
        let (ps, pe): (u64, u64) = merged[k];
        let ghost old_keep = keep@;
        let ghost old_cursor = cursor as int;
        if ps > cursor {
            keep.push((cursor, ps));
        }
        let new_cursor: u64 = if cursor >= pe {
            cursor
        } else {
            pe
        };
        proof {
            if k >= 1 {
                assert(merged@[k - 1].1 < merged@[k as int].0);
            }
            assert(old_cursor <= ps);
            assert forall|t: int| 0 <= t < pe implies (covered(keep@, t) <==> !covered(
                merged@,
                t,
            )) by {
                if ps > old_cursor {
                    lemma_covered_push(old_keep, ((cursor as u64), ps), t);
                }
                if t < old_cursor {
                } else {
                    assert(!covered(old_keep, t));
                    if old_cursor <= t < ps {
                        assert forall|j: int| 0 <= j < merged@.len() implies !((
                        #[trigger] merged@[j]).0 <= t < merged@[j].1) by {
                            if j < k {
                                lemma_merged_ends_sorted(merged@, j, k - 1);
                                assert(merged@[j].1 <= merged@[k - 1].1);
                            } else {
                                lemma_merged_starts_sorted(merged@, k as int, j);
                            }
                        }
                        assert(!covered(merged@, t));
                    }
                    if ps <= t < pe {
                        assert(merged@[k as int].0 <= t < merged@[k as int].1);
                        assert(covered(merged@, t));
                        assert(!covered(keep@, t)) by {
                            if covered(keep@, t) {
                                if ps > old_cursor {
                                    lemma_covered_push(old_keep, ((cursor as u64), ps), t);
                                }
                            }
                        }
                    }
                }
            }
        }
        proof {
            assert forall|t: int| covered(keep@, t) implies 0 <= t < new_cursor by {
                if ps > old_cursor {
                    lemma_covered_push(old_keep, ((cursor as u64), ps), t);
                }
                if covered(old_keep, t) {
                }
            }
        }
        cursor = new_cursor;
        k = k + 1;
    }
    if cursor < total {
        let ghost old_keep = keep@;
        let ghost old_cursor = cursor as int;
        keep.push((cursor, total));
        proof {
            assert forall|t: int| 0 <= t < toti implies (covered(keep@, t) <==> !covered(
                merged@,
                t,
            )) by {
                lemma_covered_push(old_keep, ((cursor as u64), total), t);
                if old_cursor <= t {
                    assert(!covered(old_keep, t));
                    assert forall|j: int| 0 <= j < merged@.len() implies !((
                    #[trigger] merged@[j]).0 <= t < merged@[j].1) by {
                        lemma_merged_ends_sorted(merged@, j, merged@.len() - 1);
                    }
                    assert(!covered(merged@, t));
                }
            }
        }
    } else {
        proof {
            assert(cursor == total);
        }
    }
    proof {
        assert forall|t: int| 0 <= t < toti implies (covered(keep@, t) <==> !in_pause(
            psv,
            smi,
            toti,
            t,
        )) by {
            assert(covered(merged@, t) == covered(sorted@, t));
            assert(covered(sorted@, t) == covered(clamped@, t));
            assert(covered(clamped@, t) == in_pause_prefix(psv, smi, toti, t, psv.len() as int));
        }
    }
    keep
}

/// In a merged pause list, earlier ranges end before later ones end.
proof fn lemma_merged_ends_sorted(merged: Seq<(u64, u64)>, a: int, b: int)
    requires
        forall|j: int| 0 <= j < merged.len() ==> (#[trigger] merged[j]).0 < merged[j].1,
        forall|j: int| 0 <= j < merged.len() - 1 ==> (#[trigger] merged[j]).1 < merged[j + 1].0,
        0 <= a <= b < merged.len(),
    ensures
        merged[a].1 <= merged[b].1,
    decreases b - a,
{
    if a < b {
        lemma_merged_ends_sorted(merged, a + 1, b);
        assert(merged[a].1 < merged[a + 1].0);
    }
}

/// In a merged pause list, later ranges start after earlier ones start.
proof fn lemma_merged_starts_sorted(merged: Seq<(u64, u64)>, a: int, b: int)
    requires
        forall|j: int| 0 <= j < merged.len() ==> (#[trigger] merged[j]).0 < merged[j].1,
        forall|j: int| 0 <= j < merged.len() - 1 ==> (#[trigger] merged[j]).1 < merged[j + 1].0,
        0 <= a <= b < merged.len(),
    ensures
        merged[a].0 <= merged[b].0,
    decreases b - a,
{
    if a < b {
        lemma_merged_starts_sorted(merged, a + 1, b);
        assert(merged[a].1 < merged[a + 1].0);
    }
}

} // verus!
