use nsc_core::audio::{
    is_likely_system_audio_device, list_microphone_input_devices, resolve_microphone_device,
    resolve_system_audio_device,
};
use nsc_core::cursor_asset::{
    escape_powershell_single_quote, parse_cur_entries_from_bytes, parse_cur_entry_info_from_bytes,
};
use nsc_core::events::{context_key, normalize_context, normalized_control_name, UiContext};
use nsc_core::project::{
    default_project_file, resolve_media_path, resolve_project_file, Background, ExportSettings,
    ZoomEasing,
};

#[test]
fn system_device_names_are_recognized() {
    assert!(is_likely_system_audio_device("Stereo Mix (Realtek Audio)"));
    assert!(is_likely_system_audio_device("virtual-audio-capturer"));
    assert!(!is_likely_system_audio_device("Microphone (USB Audio)"));
}

#[test]
fn system_device_resolution_follows_priority() {
    let devices: Vec<String> = vec![
        "Stereo Mix (Realtek)".to_string(),
        "virtual-audio-capturer".to_string(),
    ];
    assert_eq!(
        resolve_system_audio_device(&devices),
        Some("virtual-audio-capturer".to_string())
    );
    let no_loopback: Vec<String> = vec!["Microphone (USB)".to_string()];
    assert_eq!(resolve_system_audio_device(&no_loopback), None);
}

#[test]
fn microphone_listing_filters_system_devices() {
    let devices: Vec<String> = vec![
        "Microphone (USB)".to_string(),
        "Stereo Mix (Realtek)".to_string(),
    ];
    assert_eq!(
        list_microphone_input_devices(&devices),
        vec!["Microphone (USB)".to_string()]
    );
}

#[test]
fn microphone_listing_falls_back_to_all_devices() {
    let devices: Vec<String> = vec!["Stereo Mix (Realtek)".to_string()];
    assert_eq!(list_microphone_input_devices(&devices), devices);
    let empty: Vec<String> = vec![];
    assert!(list_microphone_input_devices(&empty).is_empty());
}

#[test]
fn microphone_resolution_prefers_requested_name() {
    let devices: Vec<String> = vec![
        "Microphone (USB)".to_string(),
        "Headset Mic".to_string(),
    ];
    assert_eq!(
        resolve_microphone_device(&devices, Some("headset mic")),
        Ok("Headset Mic".to_string())
    );
    assert_eq!(
        resolve_microphone_device(&devices, Some("unknown")),
        Ok("Microphone (USB)".to_string())
    );
    assert_eq!(
        resolve_microphone_device(&devices, None),
        Ok("Microphone (USB)".to_string())
    );
}

#[test]
fn microphone_resolution_without_devices_is_an_error() {
    let empty: Vec<String> = vec![];
    assert_eq!(
        resolve_microphone_device(&empty, None),
        Err("No microphone devices found via ffmpeg dshow".to_string())
    );
}

#[test]
fn context_normalization_trims_and_lowercases() {
    assert_eq!(normalize_context(Some("  FooBar ")), Some("foobar".to_string()));
    assert_eq!(normalize_context(Some("   ")), None);
    assert_eq!(normalize_context(None), None);
}

#[test]
fn context_key_prefers_app_name() {
    let ctx = UiContext {
        app_name: Some("MyApp".to_string()),
        control_name: Some("Button".to_string()),
        bounding_rect: None,
    };
    assert_eq!(context_key(Some(&ctx)), Some("myapp".to_string()));
    let no_app = UiContext {
        app_name: None,
        control_name: Some(" OK ".to_string()),
        bounding_rect: None,
    };
    assert_eq!(context_key(Some(&no_app)), Some("ok".to_string()));
    assert_eq!(context_key(None), None);
}

#[test]
fn control_name_longer_than_limit_is_unreliable() {
    let ctx = UiContext {
        app_name: None,
        control_name: Some("A very long control caption".to_string()),
        bounding_rect: None,
    };
    assert_eq!(normalized_control_name(Some(&ctx), 10), None);
    assert_eq!(
        normalized_control_name(Some(&ctx), 64),
        Some("a very long control caption".to_string())
    );
}

#[test]
fn project_file_resolution_appends_default_name() {
    assert_eq!(
        resolve_project_file("  /projects/demo  "),
        Ok("/projects/demo/project.json".to_string())
    );
    assert_eq!(
        resolve_project_file("/projects/demo/custom.JSON"),
        Ok("/projects/demo/custom.JSON".to_string())
    );
    assert_eq!(resolve_project_file("   "), Err("Project path is empty".to_string()));
}

#[test]
fn media_path_resolution_joins_relative_paths() {
    assert_eq!(
        resolve_media_path("/base", "raw.mp4"),
        Ok("/base/raw.mp4".to_string())
    );
    assert_eq!(
        resolve_media_path("/base", "/abs/raw.mp4"),
        Ok("/abs/raw.mp4".to_string())
    );
    assert_eq!(
        resolve_media_path("/base", "C:\\videos\\raw.mp4"),
        Ok("C:\\videos\\raw.mp4".to_string())
    );
    assert_eq!(
        resolve_media_path("/base", " "),
        Err("Project videoPath is empty".to_string())
    );
}

#[test]
fn default_project_location_is_under_app_folder() {
    assert_eq!(
        default_project_file("/videos", "abc-123"),
        "/videos/NeuroScreenCaster/abc-123/project.json"
    );
}

#[test]
fn project_setting_defaults() {
    assert!(matches!(ZoomEasing::default(), ZoomEasing::EaseInOut));
    let export = ExportSettings::default();
    assert_eq!(
        (export.width, export.height, export.fps),
        (1920, 1080, 30)
    );
    assert_eq!(export.codec, "h264");
    assert!(matches!(Background::default(), Background::Solid { .. }));
}

#[test]
fn cur_entries_parse_header_and_fields() {
    let mut bytes: Vec<u8> = vec![0, 0, 2, 0, 1, 0];
    bytes.extend([16, 16, 0, 0, 2, 0, 3, 0, 100, 0, 0, 0, 22, 0, 0, 0]);
    let entries = parse_cur_entries_from_bytes(&bytes);
    assert_eq!(entries.len(), 1);
    let e = entries[0];
    assert_eq!((e.width, e.height), (16, 16));
    assert_eq!((e.hotspot_x, e.hotspot_y), (2, 3));
    assert_eq!(e.bytes_in_res, 100);
    assert_eq!(e.image_offset, 22);
}

#[test]
fn cur_zero_size_byte_means_256() {
    let mut bytes: Vec<u8> = vec![0, 0, 2, 0, 1, 0];
    bytes.extend([0, 0, 0, 0, 0, 0, 0, 0, 1, 0, 0, 0, 22, 0, 0, 0]);
    let entries = parse_cur_entries_from_bytes(&bytes);
    assert_eq!((entries[0].width, entries[0].height), (256, 256));
}

#[test]
fn cur_rejects_wrong_type_or_truncation() {
    let icon: Vec<u8> = vec![0, 0, 1, 0, 1, 0];
    assert!(parse_cur_entries_from_bytes(&icon).is_empty());
    let truncated: Vec<u8> = vec![0, 0, 2, 0, 2, 0, 1, 2, 3];
    assert!(parse_cur_entries_from_bytes(&truncated).is_empty());
    assert!(parse_cur_entries_from_bytes(&[]).is_empty());
}

#[test]
fn largest_cursor_entry_wins() {
    let mut bytes: Vec<u8> = vec![0, 0, 2, 0, 2, 0];
    bytes.extend([16, 16, 0, 0, 0, 0, 0, 0, 1, 0, 0, 0, 38, 0, 0, 0]);
    bytes.extend([32, 32, 0, 0, 0, 0, 0, 0, 1, 0, 0, 0, 39, 0, 0, 0]);
    let best = parse_cur_entry_info_from_bytes(&bytes).expect("entries exist");
    assert_eq!((best.width, best.height), (32, 32));
    assert_eq!(parse_cur_entry_info_from_bytes(&[1, 2]), None);
}

#[test]
fn powershell_quotes_are_doubled() {
    assert_eq!(escape_powershell_single_quote("a'b"), "a''b");
    assert_eq!(escape_powershell_single_quote("plain"), "plain");
}
