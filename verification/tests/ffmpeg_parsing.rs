use nsc_core::ffmpeg_log::{
    extract_ffmpeg_duration_ms, extract_ffmpeg_time_ms, extract_ffmpeg_video_size, parse_hhmmss_ms,
};

#[test]
fn ffmpeg_video_size_parser_handles_common_line() {
    let line = "  Stream #0:0: Video: h264, yuv420p(progressive), 1920x1080, 30 fps";
    assert_eq!(extract_ffmpeg_video_size(line), Some((1920, 1080)));
}

#[test]
fn video_size_requires_video_marker() {
    let line = "  Stream #0:1: Audio: aac, 48000 Hz, 1920x1080";
    assert_eq!(extract_ffmpeg_video_size(line), None);
}

#[test]
fn video_size_skips_small_dimensions() {
    let line = "  Stream #0:0: Video: h264, 32x32, 30 fps";
    assert_eq!(extract_ffmpeg_video_size(line), None);
}

#[test]
fn video_size_reads_bracketed_tokens() {
    let line = "[0x1] Video: vp9, yuv420p, 640x360 [SAR 1:1]";
    assert_eq!(extract_ffmpeg_video_size(line), Some((640, 360)));
}

#[test]
fn video_size_ignores_leading_garbage_around_digits() {
    let line = " Video: h264 (High), yuv420p, (1280x720),";
    assert_eq!(extract_ffmpeg_video_size(line), Some((1280, 720)));
}

#[test]
fn hhmmss_parses_plain_clock() {
    assert_eq!(parse_hhmmss_ms("1:2:3"), Some(3_723_000));
}

#[test]
fn hhmmss_parses_fraction_with_padding() {
    assert_eq!(parse_hhmmss_ms("00:01:02.5"), Some(62_500));
    assert_eq!(parse_hhmmss_ms("00:00:00.123"), Some(123));
    assert_eq!(parse_hhmmss_ms("00:00:01.1234"), Some(1_123));
}

#[test]
fn hhmmss_rejects_malformed_values() {
    assert_eq!(parse_hhmmss_ms(""), None);
    assert_eq!(parse_hhmmss_ms("1:2"), None);
    assert_eq!(parse_hhmmss_ms("1:2:3:4"), None);
    assert_eq!(parse_hhmmss_ms("a:2:3"), None);
    assert_eq!(parse_hhmmss_ms("1:b:3"), None);
    assert_eq!(parse_hhmmss_ms("1:2:c"), None);
    assert_eq!(parse_hhmmss_ms("1:2:3.x"), None);
}

#[test]
fn duration_extracts_from_probe_line() {
    let line = "  Duration: 00:00:05.32, start: 0.000000, bitrate: 4321 kb/s";
    assert_eq!(extract_ffmpeg_duration_ms(line), Some(5_320));
}

#[test]
fn duration_missing_marker_yields_none() {
    assert_eq!(extract_ffmpeg_duration_ms("  Stream mapping:"), None);
}

#[test]
fn time_extracts_from_progress_line() {
    let line = "frame=  100 fps= 25 q=28.0 size=  512KiB time=00:00:04.00 bitrate= 1.0kbits/s";
    assert_eq!(extract_ffmpeg_time_ms(line), Some(4_000));
}

#[test]
fn time_missing_marker_yields_none() {
    assert_eq!(extract_ffmpeg_time_ms("frame=  100 fps= 25"), None);
}
