use flipperclipper::job::{ExportFormat, QualityPreset};
use flipperclipper::settings::{
    from_json_str, sanitise, AppSettings, DefaultFormat, EncoderPreference, UpdateChannel,
    MAX_TARGET_MB, MIN_TARGET_MB,
};

/// A quantity as the library carries it.
fn q(v: f64) -> i64 {
    (v * 1e9).round() as i64
}

#[test]
fn the_defaults_are_the_ones_the_contract_names() {
    let settings = AppSettings::default();
    assert_eq!(settings.update_channel, UpdateChannel::parse("stable").unwrap());
    assert!(settings.auto_check_updates);
    assert_eq!(settings.default_format.name(), "source");
    assert_eq!(settings.default_quality, QualityPreset::Balanced);
    assert_eq!(settings.default_target_mb, q(10.0));
    assert!(settings.show_filmstrip);
    assert_eq!(settings.encoder, EncoderPreference::Auto);
    assert!(settings.auto_preview_proxy);
}

#[test]
fn a_full_file_round_trips() {
    let settings = AppSettings {
        update_channel: UpdateChannel::Prerelease,
        auto_check_updates: false,
        default_format: DefaultFormat::Webm,
        default_quality: QualityPreset::Fit,
        default_target_mb: q(25.5),
        show_filmstrip: false,
        encoder: EncoderPreference::Software,
        auto_preview_proxy: false,
    };
    let text = r#"{
        "updateChannel": "prerelease",
        "autoCheckUpdates": false,
        "defaultFormat": "webm",
        "defaultQuality": "fit",
        "defaultTargetMb": 25.5,
        "showFilmstrip": false,
        "encoder": "software",
        "autoPreviewProxy": false
    }"#;
    assert_eq!(from_json_str(text), settings);
}

#[test]
fn the_target_size_is_clamped_on_the_way_out_too() {
    let settings = AppSettings {
        default_target_mb: q(99_999.0),
        ..AppSettings::default()
    };
    assert_eq!(sanitise(settings, true).default_target_mb, MAX_TARGET_MB);
}

#[test]
fn every_export_format_is_also_a_default_format() {
    // Listing a new ExportFormat variant here is forced by the match below,
    // and DefaultFormat learning it is forced by the parse.
    let all = [
        ExportFormat::Mp4,
        ExportFormat::Mkv,
        ExportFormat::Mov,
        ExportFormat::Webm,
        ExportFormat::Gif,
        ExportFormat::Mp3,
        ExportFormat::M4a,
        ExportFormat::Wav,
        ExportFormat::Flac,
        ExportFormat::Ogg,
        ExportFormat::Opus,
    ];
    fn position(format: ExportFormat) -> usize {
        match format {
            ExportFormat::Mp4 => 0,
            ExportFormat::Mkv => 1,
            ExportFormat::Mov => 2,
            ExportFormat::Webm => 3,
            ExportFormat::Gif => 4,
            ExportFormat::Mp3 => 5,
            ExportFormat::M4a => 6,
            ExportFormat::Wav => 7,
            ExportFormat::Flac => 8,
            ExportFormat::Ogg => 9,
            ExportFormat::Opus => 10,
        }
    }
    assert!(all.iter().copied().map(position).eq(0..all.len()));

    let names = [
        "mp4", "mkv", "mov", "webm", "gif", "mp3", "m4a", "wav", "flac", "ogg", "opus",
    ];
    for format in all {
        let name = names[position(format)];
        let parsed = from_json_str(&format!("{{\"defaultFormat\": \"{name}\"}}")).default_format;
        assert_eq!(parsed, DefaultFormat::from_export(format), "no variant for {name}");
        assert_eq!(parsed.name(), name);
    }
}

#[test]
fn a_missing_field_falls_back_to_its_default_and_keeps_the_rest() {
    let loaded = from_json_str(r#"{"showFilmstrip": false, "defaultTargetMb": 3}"#);
    assert!(!loaded.show_filmstrip);
    assert_eq!(loaded.default_target_mb, q(3.0));
    assert_eq!(loaded.update_channel, UpdateChannel::Stable);
    assert_eq!(loaded.default_format, DefaultFormat::Source);
}

#[test]
fn an_unreadable_or_invalid_file_is_defaults_rather_than_an_error() {
    assert_eq!(from_json_str(""), AppSettings::default());
    assert_eq!(from_json_str("not json at all"), AppSettings::default());
    assert_eq!(from_json_str("[]"), AppSettings::default());
}

#[test]
fn an_unrecognised_value_only_costs_its_own_field() {
    let loaded = from_json_str(
        r#"{"encoder": "quantum", "updateChannel": "prerelease", "showFilmstrip": false, "defaultTargetMb": 3}"#,
    );
    assert_eq!(loaded.encoder, EncoderPreference::Auto);
    assert_eq!(loaded.update_channel, UpdateChannel::Prerelease);
    assert!(!loaded.show_filmstrip);
    assert_eq!(loaded.default_target_mb, q(3.0));
}

#[test]
fn the_target_size_is_clamped_on_the_way_in() {
    assert_eq!(
        from_json_str(r#"{"defaultTargetMb": 0.001}"#).default_target_mb,
        MIN_TARGET_MB
    );
    assert_eq!(
        from_json_str(r#"{"defaultTargetMb": 1e9}"#).default_target_mb,
        MAX_TARGET_MB
    );
    assert_eq!(
        from_json_str(r#"{"defaultTargetMb": -4}"#).default_target_mb,
        MIN_TARGET_MB
    );
}

#[test]
fn the_channel_strings_are_the_ones_the_frontend_sends() {
    assert_eq!(UpdateChannel::parse("stable"), Some(UpdateChannel::Stable));
    assert_eq!(
        UpdateChannel::parse("prerelease"),
        Some(UpdateChannel::Prerelease)
    );
    assert_eq!(UpdateChannel::parse("Stable"), None);
    assert_eq!(UpdateChannel::parse("alpha"), None);
}

#[test]
fn a_choice_may_be_written_as_an_object_with_one_empty_member() {
    let read = |text: &str| from_json_str(text).encoder;
    assert_eq!(read(r#"{"encoder": {"software": null}}"#), EncoderPreference::Software);
    assert_eq!(read(r#"{"encoder": {"software": 1}}"#), EncoderPreference::Auto);
    assert_eq!(read(r#"{"encoder": {"software": null, "auto": null}}"#), EncoderPreference::Auto);
    assert_eq!(read(r#"{"encoder": null}"#), EncoderPreference::Auto);
}

#[test]
fn a_target_size_is_any_number_and_nothing_else() {
    let read = |text: &str| from_json_str(text).default_target_mb;
    assert_eq!(read(r#"{"defaultTargetMb": 12.25}"#), q(12.25));
    assert_eq!(read(r#"{"defaultTargetMb": 1.5e2}"#), q(150.0));
    assert_eq!(read(r#"{"defaultTargetMb": "12"}"#), q(10.0));
    assert_eq!(read(r#"{"defaultTargetMb": true}"#), q(10.0));
}
