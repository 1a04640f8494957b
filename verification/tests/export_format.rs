use nsc_core::export_expr::{
    apply_cursor_timing_offset_ms, build_click_pulse_factor_expr, compact_click_times,
    decimate_u64_points, escape_filter_path, format_ass_time, format_seconds, map_time_ms,
};

#[test]
fn time_mapping_is_proportional_and_rounded() {
    assert_eq!(map_time_ms(500, 1_000, 2_000), 1_000);
    assert_eq!(map_time_ms(1, 3, 1_000), 333);
    assert_eq!(map_time_ms(2, 3, 1_000), 667);
}

#[test]
fn time_mapping_of_zero_durations_is_zero() {
    assert_eq!(map_time_ms(500, 0, 2_000), 0);
    assert_eq!(map_time_ms(500, 1_000, 0), 0);
}

#[test]
fn time_mapping_clamps_to_target_duration() {
    assert_eq!(map_time_ms(2_000, 1_000, 3_000), 3_000);
}

#[test]
fn cursor_offset_shifts_and_caps() {
    assert_eq!(apply_cursor_timing_offset_ms(100, 10_000), 145);
    assert_eq!(apply_cursor_timing_offset_ms(9_990, 10_000), 10_000);
}

#[test]
fn ass_clock_format_pads_fields() {
    assert_eq!(format_ass_time(0), "0:00:00.00");
    assert_eq!(format_ass_time(3_661_230), "1:01:01.23");
    assert_eq!(format_ass_time(59_999), "0:00:59.99");
}

#[test]
fn seconds_format_has_three_decimals() {
    assert_eq!(format_seconds(1_500), "1.500");
    assert_eq!(format_seconds(45), "0.045");
    assert_eq!(format_seconds(0), "0.000");
}

#[test]
fn decimation_keeps_short_lists() {
    let points: Vec<u64> = vec![1, 2, 3];
    assert_eq!(decimate_u64_points(&points, 5), vec![1, 2, 3]);
    assert_eq!(decimate_u64_points(&points, 1), vec![1, 2, 3]);
}

#[test]
fn decimation_samples_evenly_and_keeps_last() {
    let points: Vec<u64> = (0..10).collect();
    assert_eq!(decimate_u64_points(&points, 4), vec![0, 3, 6, 9]);
    let points5: Vec<u64> = vec![10, 11, 12, 13, 14];
    assert_eq!(decimate_u64_points(&points5, 4), vec![10, 11, 12, 14]);
}

#[test]
fn click_compaction_sorts_and_enforces_gap() {
    let clicks: Vec<u64> = vec![30, 10, 200];
    assert_eq!(compact_click_times(&clicks, 100), vec![10, 200]);
}

#[test]
fn click_compaction_of_empty_list_is_empty() {
    let clicks: Vec<u64> = vec![];
    assert!(compact_click_times(&clicks, 100).is_empty());
}

#[test]
fn pulse_expression_of_no_clicks_is_constant() {
    let clicks: Vec<u64> = vec![];
    assert_eq!(build_click_pulse_factor_expr(&clicks), "1");
}

#[test]
fn pulse_expression_of_one_click_has_two_interval_terms() {
    let clicks: Vec<u64> = vec![1_000];
    let expr = build_click_pulse_factor_expr(&clicks);
    let expected = "1\
+if(gte(t,1.0000)*lt(t,1.0650),(1-(0.1800)*((t-1.0000)/0.0650))-1,0)\
+if(gte(t,1.0650)*lt(t,1.1500),(0.8200+(0.1800)*((t-1.0650)/0.0850))-1,0)";
    assert_eq!(expr, expected);
}

#[test]
fn filter_path_escaping_rewrites_separators_and_quotes() {
    assert_eq!(escape_filter_path("C:\\x\\y's.ass"), "C\\:/x/y\\'s.ass");
    assert_eq!(escape_filter_path("plain.ass"), "plain.ass");
}
