//! The user's settings, and how a settings file is read.
//!
//! A file is read field by field: an older build reading a newer build's file loses only the
//! fields it cannot make out.

use vstd::prelude::*;
use vstd::string::*;

use crate::job::{ExportFormat, QualityPreset};
use crate::json;
use crate::json::{boolean, is_named, member, number, parse, Json};
use crate::reading;
use crate::reading::{read_number, Reading};
use crate::text::chars_of;

verus! {

/// The bounds of a size target, in decimal megabytes.
pub const MIN_TARGET_MB: i64 = 500_000_000;

pub const MAX_TARGET_MB: i64 = 10_000_000_000_000;

pub const DEFAULT_TARGET_MB: i64 = 10_000_000_000;

#[derive(Debug, Clone, Copy, PartialEq, Eq, Structural)]
pub enum UpdateChannel {
    Stable,
    Prerelease,
}

#[derive(Debug, Clone, Copy, PartialEq, Eq, Structural)]
pub enum EncoderPreference {
    Auto,
    Software,
}

/// An export format, or "keep whatever the source file is".
#[derive(Debug, Clone, Copy, PartialEq, Eq, Structural)]
pub enum DefaultFormat {
    Source,
    Mp4,
    Mkv,
    Mov,
    Webm,
    Gif,
    Mp3,
    M4a,
    Wav,
    Flac,
    Ogg,
    Opus,
}

#[derive(Debug, Clone, Copy, PartialEq, Eq, Structural)]
pub struct AppSettings {
    pub update_channel: UpdateChannel,
    pub auto_check_updates: bool,
    pub default_format: DefaultFormat,
    pub default_quality: QualityPreset,
    pub default_target_mb: i64,
    pub show_filmstrip: bool,
    pub encoder: EncoderPreference,
    pub auto_preview_proxy: bool,
}

// --- Names ---

/// The names that channels, formats, qualities and encoders go by in a file.
pub open spec fn channel_name(c: UpdateChannel) -> Seq<char> {
    match c {
        UpdateChannel::Stable => "stable"@,
        UpdateChannel::Prerelease => "prerelease"@,
    }
}

pub open spec fn encoder_name(e: EncoderPreference) -> Seq<char> {
    match e {
        EncoderPreference::Auto => "auto"@,
        EncoderPreference::Software => "software"@,
    }
}

pub open spec fn quality_name(q: QualityPreset) -> Seq<char> {
    match q {
        QualityPreset::High => "high"@,
        QualityPreset::Balanced => "balanced"@,
        QualityPreset::Small => "small"@,
        QualityPreset::Fit => "fit"@,
    }
}

pub open spec fn format_name(f: DefaultFormat) -> Seq<char> {
    match f {
        DefaultFormat::Source => "source"@,
        DefaultFormat::Mp4 => "mp4"@,
        DefaultFormat::Mkv => "mkv"@,
        DefaultFormat::Mov => "mov"@,
        DefaultFormat::Webm => "webm"@,
        DefaultFormat::Gif => "gif"@,
        DefaultFormat::Mp3 => "mp3"@,
        DefaultFormat::M4a => "m4a"@,
        DefaultFormat::Wav => "wav"@,
        DefaultFormat::Flac => "flac"@,
        DefaultFormat::Ogg => "ogg"@,
        DefaultFormat::Opus => "opus"@,
    }
}

/// The default format that stands for an export format.
pub open spec fn as_default(f: ExportFormat) -> DefaultFormat {
    match f {
        ExportFormat::Mp4 => DefaultFormat::Mp4,
        ExportFormat::Mkv => DefaultFormat::Mkv,
        ExportFormat::Mov => DefaultFormat::Mov,
        ExportFormat::Webm => DefaultFormat::Webm,
        ExportFormat::Gif => DefaultFormat::Gif,
        ExportFormat::Mp3 => DefaultFormat::Mp3,
        ExportFormat::M4a => DefaultFormat::M4a,
        ExportFormat::Wav => DefaultFormat::Wav,
        ExportFormat::Flac => DefaultFormat::Flac,
        ExportFormat::Ogg => DefaultFormat::Ogg,
        ExportFormat::Opus => DefaultFormat::Opus,
    }
}

impl UpdateChannel {
    /// Reads a channel by its name.
    pub fn parse(raw: &str) -> (r: Option<UpdateChannel>)
        ensures
            r == (if raw@ == "stable"@ {
                Some(UpdateChannel::Stable)
            } else if raw@ == "prerelease"@ {
                Some(UpdateChannel::Prerelease)
            } else {
                None
            }),
    {
        if *raw == *"stable" {
            Some(UpdateChannel::Stable)
        } else if *raw == *"prerelease" {
            Some(UpdateChannel::Prerelease)
        } else {
            None
        }
    }
}

impl DefaultFormat {
    /// The name the format goes by.
    pub fn name(self) -> (r: &'static str)
        ensures
            r@ == format_name(self),
    {
        match self {
            DefaultFormat::Source => "source",
            DefaultFormat::Mp4 => "mp4",
            DefaultFormat::Mkv => "mkv",
            DefaultFormat::Mov => "mov",
            DefaultFormat::Webm => "webm",
            DefaultFormat::Gif => "gif",
            DefaultFormat::Mp3 => "mp3",
            DefaultFormat::M4a => "m4a",
            DefaultFormat::Wav => "wav",
            DefaultFormat::Flac => "flac",
            DefaultFormat::Ogg => "ogg",
            DefaultFormat::Opus => "opus",
        }
    }

    /// The default format that stands for an export format: there is one for each.
    pub fn from_export(f: ExportFormat) -> (r: DefaultFormat)
        ensures
            r == as_default(f),
    {
        match f {
            ExportFormat::Mp4 => DefaultFormat::Mp4,
            ExportFormat::Mkv => DefaultFormat::Mkv,
            ExportFormat::Mov => DefaultFormat::Mov,
            ExportFormat::Webm => DefaultFormat::Webm,
            ExportFormat::Gif => DefaultFormat::Gif,
            ExportFormat::Mp3 => DefaultFormat::Mp3,
            ExportFormat::M4a => DefaultFormat::M4a,
            ExportFormat::Wav => DefaultFormat::Wav,
            ExportFormat::Flac => DefaultFormat::Flac,
            ExportFormat::Ogg => DefaultFormat::Ogg,
            ExportFormat::Opus => DefaultFormat::Opus,
        }
    }
}

impl Default for AppSettings {
    fn default() -> (r: AppSettings)
        ensures
            r == defaults(),
    {
        AppSettings {
            update_channel: UpdateChannel::Stable,
            auto_check_updates: true,
            default_format: DefaultFormat::Source,
            default_quality: QualityPreset::Balanced,
            default_target_mb: DEFAULT_TARGET_MB,
            show_filmstrip: true,
            encoder: EncoderPreference::Auto,
            auto_preview_proxy: true,
        }
    }
}

/// The settings of a user who has changed none.
pub open spec fn defaults() -> AppSettings {
    AppSettings {
        update_channel: UpdateChannel::Stable,
        auto_check_updates: true,
        default_format: DefaultFormat::Source,
        default_quality: QualityPreset::Balanced,
        default_target_mb: DEFAULT_TARGET_MB,
        show_filmstrip: true,
        encoder: EncoderPreference::Auto,
        auto_preview_proxy: true,
    }
}

// --- Keeping settings in range ---

pub open spec fn in_range(mb: i64) -> i64 {
    if mb < MIN_TARGET_MB {
        MIN_TARGET_MB
    } else if mb > MAX_TARGET_MB {
        MAX_TARGET_MB
    } else {
        mb
    }
}

/// Settings with the size target brought into its bounds; one that is no finite number is
/// replaced by the default.
pub open spec fn sanitised(s: AppSettings, finite: bool) -> AppSettings {
    AppSettings {
        default_target_mb: if finite {
            in_range(s.default_target_mb)
        } else {
            DEFAULT_TARGET_MB
        },
        ..s
    }
}

pub fn sanitise(settings: AppSettings, finite: bool) -> (r: AppSettings)
    ensures
        r == sanitised(settings, finite),
{
    let mut kept = settings;
    kept.default_target_mb = if !finite {
        DEFAULT_TARGET_MB
    } else if settings.default_target_mb < MIN_TARGET_MB {
        MIN_TARGET_MB
    } else if settings.default_target_mb > MAX_TARGET_MB {
        MAX_TARGET_MB
    } else {
        settings.default_target_mb
    };
    kept
}

/// Settings that were brought into range stay as they are, and nothing but the size target is
/// ever touched.
pub proof fn law_sanitising_settles(s: AppSettings, finite: bool)
    ensures
        sanitised(sanitised(s, finite), true) == sanitised(s, finite),
        MIN_TARGET_MB <= sanitised(s, finite).default_target_mb <= MAX_TARGET_MB,
        sanitised(s, finite) == (AppSettings {
            default_target_mb: sanitised(s, finite).default_target_mb,
            ..s
        }),
{
}

// --- Reading a file ---

pub open spec fn read_bool(j: Option<Json>, otherwise: bool) -> bool {
    match j {
        Some(v) => match v.boolean() {
            Some(b) => b,
            None => otherwise,
        },
        None => otherwise,
    }
}

/// A size target, in billionths.
pub open spec fn read_target(j: Option<Json>, otherwise: i64) -> i64 {
    match j {
        Some(v) => match v.number() {
            Some(s) => match reading::reading(s, 9) {
                Some(Reading::Value(mb)) => mb,
                _ => otherwise,
            },
            None => otherwise,
        },
        None => otherwise,
    }
}

pub open spec fn read_channel(j: Option<Json>) -> UpdateChannel {
    match j {
        Some(v) => if json::names(v, "prerelease"@) {
            UpdateChannel::Prerelease
        } else {
            UpdateChannel::Stable
        },
        None => UpdateChannel::Stable,
    }
}

pub open spec fn read_encoder(j: Option<Json>) -> EncoderPreference {
    match j {
        Some(v) => if json::names(v, "software"@) {
            EncoderPreference::Software
        } else {
            EncoderPreference::Auto
        },
        None => EncoderPreference::Auto,
    }
}

pub open spec fn read_quality(j: Option<Json>) -> QualityPreset {
    match j {
        Some(v) => if json::names(v, "high"@) {
            QualityPreset::High
        } else if json::names(v, "small"@) {
            QualityPreset::Small
        } else if json::names(v, "fit"@) {
            QualityPreset::Fit
        } else {
            QualityPreset::Balanced
        },
        None => QualityPreset::Balanced,
    }
}

pub open spec fn read_format(j: Option<Json>) -> DefaultFormat {
    match j {
        Some(v) => if json::names(v, "mp4"@) {
            DefaultFormat::Mp4
        } else if json::names(v, "mkv"@) {
            DefaultFormat::Mkv
        } else if json::names(v, "mov"@) {
            DefaultFormat::Mov
        } else if json::names(v, "webm"@) {
            DefaultFormat::Webm
        } else if json::names(v, "gif"@) {
            DefaultFormat::Gif
        } else if json::names(v, "mp3"@) {
            DefaultFormat::Mp3
        } else if json::names(v, "m4a"@) {
            DefaultFormat::M4a
        } else if json::names(v, "wav"@) {
            DefaultFormat::Wav
        } else if json::names(v, "flac"@) {
            DefaultFormat::Flac
        } else if json::names(v, "ogg"@) {
            DefaultFormat::Ogg
        } else if json::names(v, "opus"@) {
            DefaultFormat::Opus
        } else {
            DefaultFormat::Source
        },
        None => DefaultFormat::Source,
    }
}

/// The settings a file holds. Every field that is missing or cannot be made out is the default.
pub open spec fn settings_in(root: Json) -> AppSettings {
    AppSettings {
        update_channel: read_channel(root.get("updateChannel"@)),
        auto_check_updates: read_bool(root.get("autoCheckUpdates"@), true),
        default_format: read_format(root.get("defaultFormat"@)),
        default_quality: read_quality(root.get("defaultQuality"@)),
        default_target_mb: in_range(read_target(root.get("defaultTargetMb"@), DEFAULT_TARGET_MB)),
        show_filmstrip: read_bool(root.get("showFilmstrip"@), true),
        encoder: read_encoder(root.get("encoder"@)),
        auto_preview_proxy: read_bool(root.get("autoPreviewProxy"@), true),
    }
}

/// The settings of a file that was read as JSON, or not.
pub open spec fn settings_of(report: Result<Json, Seq<char>>) -> AppSettings {
    match report {
        Ok(root) => settings_in(root),
        Err(_) => defaults(),
    }
}

fn bool_field(root: &serde_json::Value, key: &str, otherwise: bool) -> (r: bool)
    ensures
        r == read_bool(json::json_of(*root).get(key@), otherwise),
{
    match member(root, key) {
        Some(v) => match boolean(v) {
            Some(b) => b,
            None => otherwise,
        },
        None => otherwise,
    }
}

fn target_field(root: &serde_json::Value, key: &str, otherwise: i64) -> (r: i64)
    ensures
        r == read_target(json::json_of(*root).get(key@), otherwise),
{
    match member(root, key) {
        Some(v) => match number(v) {
            Some(s) => match read_number(&chars_of(s.as_str()), 9) {
                Some(Reading::Value(mb)) => mb,
                _ => otherwise,
            },
            None => otherwise,
        },
        None => otherwise,
    }
}

fn channel_field(root: &serde_json::Value, key: &str) -> (r: UpdateChannel)
    ensures
        r == read_channel(json::json_of(*root).get(key@)),
{
    match member(root, key) {
        Some(v) => if is_named(v, "prerelease") {
            UpdateChannel::Prerelease
        } else {
            UpdateChannel::Stable
        },
        None => UpdateChannel::Stable,
    }
}

fn encoder_field(root: &serde_json::Value, key: &str) -> (r: EncoderPreference)
    ensures
        r == read_encoder(json::json_of(*root).get(key@)),
{
    match member(root, key) {
        Some(v) => if is_named(v, "software") {
            EncoderPreference::Software
        } else {
            EncoderPreference::Auto
        },
        None => EncoderPreference::Auto,
    }
}

fn quality_field(root: &serde_json::Value, key: &str) -> (r: QualityPreset)
    ensures
        r == read_quality(json::json_of(*root).get(key@)),
{
    match member(root, key) {
        Some(v) => if is_named(v, "high") {
            QualityPreset::High
        } else if is_named(v, "small") {
            QualityPreset::Small
        } else if is_named(v, "fit") {
            QualityPreset::Fit
        } else {
            QualityPreset::Balanced
        },
        None => QualityPreset::Balanced,
    }
}

fn format_field(root: &serde_json::Value, key: &str) -> (r: DefaultFormat)
    ensures
        r == read_format(json::json_of(*root).get(key@)),
{
    match member(root, key) {
        Some(v) => if is_named(v, "mp4") {
            DefaultFormat::Mp4
        } else if is_named(v, "mkv") {
            DefaultFormat::Mkv
        } else if is_named(v, "mov") {
            DefaultFormat::Mov
        } else if is_named(v, "webm") {
            DefaultFormat::Webm
        } else if is_named(v, "gif") {
            DefaultFormat::Gif
        } else if is_named(v, "mp3") {
            DefaultFormat::Mp3
        } else if is_named(v, "m4a") {
            DefaultFormat::M4a
        } else if is_named(v, "wav") {
            DefaultFormat::Wav
        } else if is_named(v, "flac") {
            DefaultFormat::Flac
        } else if is_named(v, "ogg") {
            DefaultFormat::Ogg
        } else if is_named(v, "opus") {
            DefaultFormat::Opus
        } else {
            DefaultFormat::Source
        },
        None => DefaultFormat::Source,
    }
}

/// The settings of a file that was read as JSON, or not.
pub fn settings_from(report: Result<serde_json::Value, String>) -> (r: AppSettings)
    ensures
        r == settings_of(
            match report {
                Ok(v) => Ok(json::json_of(v)),
                Err(e) => Err(e@),
            },
        ),
{
    let root = match report {
        Ok(v) => v,
        Err(_) => {
            return AppSettings::default();
        },
    };
    let settings = AppSettings {
        update_channel: channel_field(&root, "updateChannel"),
        auto_check_updates: bool_field(&root, "autoCheckUpdates", true),
        default_format: format_field(&root, "defaultFormat"),
        default_quality: quality_field(&root, "defaultQuality"),
        default_target_mb: target_field(&root, "defaultTargetMb", DEFAULT_TARGET_MB),
        show_filmstrip: bool_field(&root, "showFilmstrip", true),
        encoder: encoder_field(&root, "encoder"),
        auto_preview_proxy: bool_field(&root, "autoPreviewProxy", true),
    };
    sanitise(settings, true)
}

/// The settings a file's text holds. Anything unreadable settles as defaults.
pub fn from_json_str(text: &str) -> (r: AppSettings)
    ensures
        r == settings_of(json::json_parse(text@)),
{
    settings_from(parse(text))
}

/// A file that is no object holds the defaults.
pub proof fn law_no_object_is_defaults(root: Json)
    requires
        !(root is Object),
    ensures
        settings_in(root) == defaults(),
{
}

/// What one member of a file holds, readable or not, matters to its own field alone.
pub proof fn law_a_member_costs_its_own_field(
    members: Map<Seq<char>, Json>,
    key: Seq<char>,
    value: Json,
)
    ensures
        ({
            let before = settings_in(Json::Object(members));
            let after = settings_in(Json::Object(members.insert(key, value)));
            &&& key != "updateChannel"@ ==> after.update_channel == before.update_channel
            &&& key != "autoCheckUpdates"@ ==> after.auto_check_updates == before.auto_check_updates
            &&& key != "defaultFormat"@ ==> after.default_format == before.default_format
            &&& key != "defaultQuality"@ ==> after.default_quality == before.default_quality
            &&& key != "defaultTargetMb"@ ==> after.default_target_mb == before.default_target_mb
            &&& key != "showFilmstrip"@ ==> after.show_filmstrip == before.show_filmstrip
            &&& key != "encoder"@ ==> after.encoder == before.encoder
            &&& key != "autoPreviewProxy"@ ==> after.auto_preview_proxy == before.auto_preview_proxy
        }),
{
}

/// Every choice is read back from its own name.
pub proof fn law_names_read_back(c: UpdateChannel, e: EncoderPreference, q: QualityPreset, f: DefaultFormat)
    ensures
        read_channel(Some(Json::Text(channel_name(c)))) == c,
        read_encoder(Some(Json::Text(encoder_name(e)))) == e,
        read_quality(Some(Json::Text(quality_name(q)))) == q,
        read_format(Some(Json::Text(format_name(f)))) == f,
{
    reveal_strlit("stable");
    reveal_strlit("prerelease");
    reveal_strlit("auto");
    reveal_strlit("software");
    reveal_strlit("high");
    reveal_strlit("balanced");
    reveal_strlit("small");
    reveal_strlit("fit");
    assert("stable"@.len() != "prerelease"@.len());
    assert("auto"@.len() != "software"@.len());
    assert("high"@.len() == 4 && "balanced"@.len() == 8 && "small"@.len() == 5 && "fit"@.len() == 3);
    lemma_format_names_differ(f);
}

proof fn lemma_format_names_differ(f: DefaultFormat)
    ensures
        read_format(Some(Json::Text(format_name(f)))) == f,
{
    reveal_strlit("source");
    reveal_strlit("mp4");
    reveal_strlit("mkv");
    reveal_strlit("mov");
    reveal_strlit("webm");
    reveal_strlit("gif");
    reveal_strlit("mp3");
    reveal_strlit("m4a");
    reveal_strlit("wav");
    reveal_strlit("flac");
    reveal_strlit("ogg");
    reveal_strlit("opus");
    let name = format_name(f);
    assert("source"@.len() == 6);
    assert("webm"@.len() == 4 && "webm"@[0] == 'w');
    assert("flac"@.len() == 4 && "flac"@[0] == 'f');
    assert("opus"@.len() == 4 && "opus"@[0] == 'o');
    assert("mp4"@.len() == 3 && "mp4"@[0] == 'm' && "mp4"@[1] == 'p' && "mp4"@[2] == '4');
    assert("mp3"@.len() == 3 && "mp3"@[0] == 'm' && "mp3"@[1] == 'p' && "mp3"@[2] == '3');
    assert("mkv"@.len() == 3 && "mkv"@[0] == 'm' && "mkv"@[1] == 'k');
    assert("mov"@.len() == 3 && "mov"@[0] == 'm' && "mov"@[1] == 'o');
    assert("m4a"@.len() == 3 && "m4a"@[0] == 'm' && "m4a"@[1] == '4');
    assert("gif"@.len() == 3 && "gif"@[0] == 'g');
    assert("wav"@.len() == 3 && "wav"@[0] == 'w');
    assert("ogg"@.len() == 3 && "ogg"@[0] == 'o');
}

/// A size target that was read or cleaned up is one that an export accepts: half a megabyte to ten
/// thousand. One that is in range stays as it is.
pub proof fn law_a_kept_target_can_be_exported(root: Json, s: AppSettings, finite: bool)
    ensures
        500_000_000 <= settings_in(root).default_target_mb <= 10_000_000_000_000,
        500_000_000 <= sanitised(s, finite).default_target_mb <= 10_000_000_000_000,
        finite && 500_000_000 <= s.default_target_mb <= 10_000_000_000_000 ==> sanitised(s, finite) == s,
        !finite ==> sanitised(s, finite).default_target_mb == 10_000_000_000,
        defaults().default_target_mb == 10_000_000_000,
        defaults().default_quality is Balanced,
        defaults().update_channel is Stable,
        defaults().auto_check_updates && defaults().show_filmstrip && defaults().auto_preview_proxy,
        defaults().encoder is Auto,
        defaults().default_format is Source,
{
}

} // verus!
