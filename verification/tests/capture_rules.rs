use nsc_core::capture::{
    downscale_bgra_for_preview, estimate_h264_bitrate, keep_ranges_after_pauses,
    normalize_frame_for_encoder, sanitize_recording_fps, total_pause_duration_ms,
    AutoZoomTriggerMode, RecordingAudioMode, RecordingQuality, RecordingQualityOption,
};

#[test]
fn bitrate_matches_screen_content_heuristic() {
    assert_eq!(
        estimate_h264_bitrate(1_920, 1_080, 30, RecordingQuality::Balanced),
        6_842_880
    );
}

#[test]
fn bitrate_is_clamped_below() {
    assert_eq!(
        estimate_h264_bitrate(100, 100, 1, RecordingQuality::Low),
        3_000_000
    );
}

#[test]
fn bitrate_is_clamped_above() {
    assert_eq!(
        estimate_h264_bitrate(7_680, 4_320, 120, RecordingQuality::High),
        60_000_000
    );
}

#[test]
fn quality_scales_order_low_to_high() {
    let low = estimate_h264_bitrate(2_560, 1_440, 60, RecordingQuality::Low);
    let balanced = estimate_h264_bitrate(2_560, 1_440, 60, RecordingQuality::Balanced);
    let high = estimate_h264_bitrate(2_560, 1_440, 60, RecordingQuality::High);
    assert!(low < balanced && balanced < high);
}

#[test]
fn fps_rounds_to_supported_rates() {
    assert_eq!(sanitize_recording_fps(60), 60);
    assert_eq!(sanitize_recording_fps(45), 60);
    assert_eq!(sanitize_recording_fps(44), 30);
    assert_eq!(sanitize_recording_fps(0), 30);
}

#[test]
fn quality_option_maps_onto_recorder_quality() {
    assert_eq!(
        RecordingQualityOption::Low.as_recorder_quality(),
        RecordingQuality::Low
    );
    assert_eq!(
        RecordingQualityOption::Balanced.as_recorder_quality(),
        RecordingQuality::Balanced
    );
    assert_eq!(
        RecordingQualityOption::High.as_recorder_quality(),
        RecordingQuality::High
    );
}

#[test]
fn defaults_of_recording_enums() {
    assert_eq!(RecordingQualityOption::default(), RecordingQualityOption::Balanced);
    assert_eq!(AutoZoomTriggerMode::default(), AutoZoomTriggerMode::SingleClick);
    assert_eq!(RecordingAudioMode::default(), RecordingAudioMode::NoAudio);
}

#[test]
fn pause_total_sums_well_formed_ranges() {
    let ranges: Vec<(u64, u64)> = vec![(10, 30), (50, 40), (100, 125)];
    assert_eq!(total_pause_duration_ms(&ranges), 45);
}

#[test]
fn pause_total_of_empty_list_is_zero() {
    let ranges: Vec<(u64, u64)> = vec![];
    assert_eq!(total_pause_duration_ms(&ranges), 0);
}

#[test]
fn keep_ranges_cut_out_one_pause() {
    let pauses: Vec<(u64, u64)> = vec![(2_000, 3_000)];
    let keep = keep_ranges_after_pauses(1_000, 5_000, &pauses);
    assert_eq!(keep, vec![(0, 1_000), (2_000, 4_000)]);
}

#[test]
fn keep_ranges_without_pauses_cover_everything() {
    let pauses: Vec<(u64, u64)> = vec![];
    let keep = keep_ranges_after_pauses(1_000, 5_000, &pauses);
    assert_eq!(keep, vec![(0, 4_000)]);
}

#[test]
fn keep_ranges_merge_overlapping_pauses() {
    let pauses: Vec<(u64, u64)> = vec![(1_500, 2_500), (2_000, 3_000)];
    let keep = keep_ranges_after_pauses(1_000, 5_000, &pauses);
    assert_eq!(keep, vec![(0, 500), (2_000, 4_000)]);
}

#[test]
fn keep_ranges_ignore_pauses_outside_recording() {
    let pauses: Vec<(u64, u64)> = vec![(6_000, 7_000)];
    let keep = keep_ranges_after_pauses(1_000, 5_000, &pauses);
    assert_eq!(keep, vec![(0, 4_000)]);
}

#[test]
fn keep_ranges_of_zero_length_recording_are_empty() {
    let pauses: Vec<(u64, u64)> = vec![(0, 10)];
    let keep = keep_ranges_after_pauses(5_000, 5_000, &pauses);
    assert!(keep.is_empty());
}

#[test]
fn keep_ranges_fully_paused_recording_keeps_nothing() {
    let pauses: Vec<(u64, u64)> = vec![(1_000, 9_000)];
    let keep = keep_ranges_after_pauses(1_000, 5_000, &pauses);
    assert!(keep.is_empty());
}

#[test]
fn frame_rows_are_flipped_for_encoder() {
    let buffer: Vec<u8> = (0u8..16).collect();
    let flipped = normalize_frame_for_encoder(&buffer, 2, 2);
    let mut expected: Vec<u8> = (8u8..16).collect();
    expected.extend(0u8..8);
    assert_eq!(flipped, expected);
}

#[test]
fn short_frame_buffer_passes_through_unchanged() {
    let buffer: Vec<u8> = vec![1, 2, 3];
    assert_eq!(normalize_frame_for_encoder(&buffer, 2, 2), vec![1, 2, 3]);
}

#[test]
fn preview_downscale_samples_nearest_pixels() {
    let source: Vec<u8> = (0u8..32).collect();
    let (out, w, h) = downscale_bgra_for_preview(&source, 4, 2, 2);
    assert_eq!(w, 2);
    assert_eq!(h, 1);
    assert_eq!(out, vec![0, 1, 2, 3, 8, 9, 10, 11]);
}

#[test]
fn preview_downscale_keeps_narrow_frames() {
    let source: Vec<u8> = (0u8..16).collect();
    let (out, w, h) = downscale_bgra_for_preview(&source, 2, 2, 4);
    assert_eq!((w, h), (2, 2));
    assert_eq!(out, source);
}
