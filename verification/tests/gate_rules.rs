use nsc_core::capture::AutoZoomTriggerMode;
use nsc_core::gate::{
    camera_config_for_trigger_mode, choose_preroll_start, cluster_click_spans,
    filter_clicks_by_activation_window, ClickActivationMode, SpeedSample,
};

#[test]
fn single_click_is_ignored_by_two_click_gate() {
    let clicks: Vec<u64> = vec![1_000];
    let gated = filter_clicks_by_activation_window(&clicks, 3_000, 2, 300);
    assert!(gated.is_empty());
}

#[test]
fn two_clicks_within_activation_window_pass_the_gate() {
    let clicks: Vec<u64> = vec![1_000, 2_100];
    let gated = filter_clicks_by_activation_window(&clicks, 3_000, 2, 300);
    assert_eq!(gated, vec![2_100]);
}

#[test]
fn rapid_predecessor_is_retroactively_included() {
    let clicks: Vec<u64> = vec![1_000, 1_200];
    let gated = filter_clicks_by_activation_window(&clicks, 3_000, 2, 300);
    assert_eq!(gated, vec![1_000, 1_200]);
}

#[test]
fn clicks_outside_window_do_not_activate() {
    let clicks: Vec<u64> = vec![1_000, 6_000];
    let gated = filter_clicks_by_activation_window(&clicks, 3_000, 2, 300);
    assert!(gated.is_empty());
}

#[test]
fn single_click_mode_passes_every_click() {
    let clicks: Vec<u64> = vec![500, 5_000];
    let gated = filter_clicks_by_activation_window(&clicks, 3_000, 1, 1);
    assert_eq!(gated, vec![500, 5_000]);
}

#[test]
fn clusters_merge_by_gap() {
    let clicks: Vec<u64> = vec![100, 250, 800];
    let spans = cluster_click_spans(&clicks, 300);
    assert_eq!(spans.len(), 2);
    assert_eq!(spans[0].start_ts, 100);
    assert_eq!(spans[0].end_ts, 250);
    assert_eq!(spans[0].click_count, 2);
    assert_eq!(spans[1].start_ts, 800);
    assert_eq!(spans[1].end_ts, 800);
    assert_eq!(spans[1].click_count, 1);
}

#[test]
fn clusters_of_empty_click_list_are_empty() {
    let clicks: Vec<u64> = vec![];
    let spans = cluster_click_spans(&clicks, 300);
    assert!(spans.is_empty());
}

#[test]
fn trigger_mode_single_click_reacts_to_each_click() {
    let cfg = camera_config_for_trigger_mode(AutoZoomTriggerMode::SingleClick);
    assert_eq!(cfg.click_activation_mode, ClickActivationMode::SingleClick);
    assert_eq!(cfg.min_clicks_to_activate, 1);
    assert_eq!(cfg.click_cluster_gap_ms, 1);
    assert_eq!(cfg.min_zoom_interval_ms, 1);
    assert_eq!(cfg.activation_window_ms, 3_000);
}

#[test]
fn trigger_mode_multi_click_uses_window_defaults() {
    let cfg = camera_config_for_trigger_mode(AutoZoomTriggerMode::MultiClickWindow);
    assert_eq!(cfg.click_activation_mode, ClickActivationMode::MultiClickWindow);
    assert_eq!(cfg.min_clicks_to_activate, 2);
    assert_eq!(cfg.activation_window_ms, 3_000);
    assert_eq!(cfg.click_cluster_gap_ms, 300);
    assert_eq!(cfg.min_zoom_interval_ms, 2_000);
}

#[test]
fn trigger_mode_ctrl_click_matches_single_click_knobs() {
    let cfg = camera_config_for_trigger_mode(AutoZoomTriggerMode::CtrlClick);
    assert_eq!(cfg.click_activation_mode, ClickActivationMode::CtrlClick);
    assert_eq!(cfg.min_clicks_to_activate, 1);
    assert_eq!(cfg.click_cluster_gap_ms, 1);
}

#[test]
fn gate_is_deterministic_across_runs() {
    let clicks: Vec<u64> = vec![10, 400, 410, 3_000, 9_000, 9_050];
    let first = filter_clicks_by_activation_window(&clicks, 3_000, 2, 300);
    let second = filter_clicks_by_activation_window(&clicks, 3_000, 2, 300);
    assert_eq!(first, second);
    let spans_a = cluster_click_spans(&first, 300);
    let spans_b = cluster_click_spans(&second, 300);
    assert_eq!(spans_a, spans_b);
}

#[test]
fn preroll_is_disabled_while_the_cursor_is_fast() {
    let samples = vec![
        SpeedSample { ts: 900, fast: true },
        SpeedSample { ts: 980, fast: true },
    ];
    assert_eq!(choose_preroll_start(1_000, &samples, 400), 1_000);
}

#[test]
fn preroll_starts_at_the_deceleration_crossing() {
    let samples = vec![
        SpeedSample { ts: 700, fast: true },
        SpeedSample { ts: 900, fast: false },
        SpeedSample { ts: 960, fast: false },
    ];
    assert_eq!(choose_preroll_start(1_000, &samples, 400), 900);
}

#[test]
fn preroll_falls_back_to_the_window_start_when_always_slow() {
    let samples = vec![
        SpeedSample { ts: 700, fast: false },
        SpeedSample { ts: 900, fast: false },
    ];
    assert_eq!(choose_preroll_start(1_000, &samples, 400), 700);
}

#[test]
fn preroll_without_observations_starts_at_the_click() {
    let samples: Vec<SpeedSample> = vec![];
    assert_eq!(choose_preroll_start(1_000, &samples, 400), 1_000);
}
