//! What the debug panel reports, and the test export it can run.

use vstd::prelude::*;
use vstd::string::*;

use crate::job::{Effects, ExportFormat, ExportJob, Orientation, QualityPreset};
use crate::number;
use crate::number::decimal_text;
use crate::text;
use crate::text::{copy, joined_to, line_at_front, trim_text};

verus! {

broadcast use {crate::text::texts_push, crate::text::texts_add};

#[derive(Debug, Clone)]
pub struct ToolReport {
    pub found: bool,
    /// Where it resolved to, which is the answer when two are installed.
    pub path: Option<String>,
    pub version: Option<String>,
}

#[derive(Debug, Clone)]
pub struct DebugReport {
    pub app_version: String,
    pub tauri_version: String,
    pub arch: String,
    pub os_family: String,
    pub ffmpeg: ToolReport,
    pub ffprobe: ToolReport,
    /// What an export would encode with, hardware or software.
    pub encoder: String,
    pub config_dir: Option<String>,
    pub temp_dir: String,
}

#[derive(Debug, Clone)]
pub struct DiagnosticResult {
    pub success: bool,
    pub message: String,
    /// Whatever FFmpeg said, when it said anything. Empty on success.
    pub detail: String,
    pub millis: u64,
}

/// What is reported of a tool, from where it was found and what its version run printed. The
/// first line carries the version; the rest is how it was built.
pub fn tool(found: Option<(String, String)>) -> (r: ToolReport)
    ensures
        r.found == (found is Some),
        found matches Some((path, printed)) ==> text::maybe_text(r.path) == Some(path@)
            && text::maybe_text(r.version) == text::first_line(printed@),
        found is None ==> r.path is None && r.version is None,
{
    match found {
        Some((path, printed)) => {
            let version = line_at_front(printed.as_str());
            ToolReport { found: true, path: Some(path), version }
        },
        None => ToolReport { found: false, path: None, version: None },
    }
}

// --- The test export ---

/// The test clip, small enough to encode in well under a second on anything.
pub const TEST_WIDTH: i64 = 320;

pub const TEST_HEIGHT: i64 = 180;

pub const TEST_FPS: i64 = 30_000_000_000;

/// Long enough for a cold start on a slow disk, short enough that a hung one still answers.
pub const DIAGNOSTIC_TIMEOUT_SECONDS: u64 = 60;

/// Two seconds of colour bars and a tone, made by FFmpeg, so that the test needs no clip of its
/// own.
pub fn source_args(path: &str) -> (r: Vec<String>)
    ensures
        text::texts(r@) == seq![
            "-hide_banner"@,
            "-loglevel"@,
            "error"@,
            "-y"@,
            "-f"@,
            "lavfi"@,
            "-i"@,
            "testsrc2=size=320x180:rate=30:duration=2"@,
            "-f"@,
            "lavfi"@,
            "-i"@,
            "sine=frequency=440:duration=2"@,
            "-c:v"@,
            "libx264"@,
            "-preset"@,
            "ultrafast"@,
            "-pix_fmt"@,
            "yuv420p"@,
            "-c:a"@,
            "aac"@,
            "-shortest"@,
            path@,
        ],
{
    let mut args: Vec<String> = Vec::new();
    args.push("-hide_banner".to_string());
    args.push("-loglevel".to_string());
    args.push("error".to_string());
    args.push("-y".to_string());
    args.push("-f".to_string());
    args.push("lavfi".to_string());
    args.push("-i".to_string());
    args.push("testsrc2=size=320x180:rate=30:duration=2".to_string());
    args.push("-f".to_string());
    args.push("lavfi".to_string());
    args.push("-i".to_string());
    args.push("sine=frequency=440:duration=2".to_string());
    args.push("-c:v".to_string());
    args.push("libx264".to_string());
    args.push("-preset".to_string());
    args.push("ultrafast".to_string());
    args.push("-pix_fmt".to_string());
    args.push("yuv420p".to_string());
    args.push("-c:a".to_string());
    args.push("aac".to_string());
    args.push("-shortest".to_string());
    args.push(path.to_string());
    args
}

/// A job that touches what an ordinary export touches: a trim, a retime and a filter.
pub fn diagnostic_job(input: String, output: String) -> (r: ExportJob)
    ensures
        r.input == input,
        r.output == output,
        r.in_point == 250_000_000,
        r.out_point == 1_750_000_000,
        r.speed == 1_500_000_000,
        r.ramp@.len() == 0,
        r.orientation == (Orientation { rotate: 0, flip_h: false, flip_v: false }),
        r.crop is None,
        !r.mute && !r.reverse && !r.normalize && !r.lossless,
        r.volume == 1_000_000_000,
        r.format is Mp4,
        r.quality is Balanced,
        r.target_mb is None && r.output_height is None && r.video_kbps is None,
        r.effects.contrast == Some(1_100_000_000i64),
        !(Effects { contrast: None, ..r.effects }).on(),
{
    let mut effects = Effects::default();
    effects.contrast = Some(1_100_000_000);
    ExportJob {
        input,
        output,
        in_point: 250_000_000,
        out_point: 1_750_000_000,
        speed: 1_500_000_000,
        ramp: Vec::new(),
        orientation: Orientation::default(),
        crop: None,
        mute: false,
        reverse: false,
        normalize: false,
        volume: 1_000_000_000,
        format: ExportFormat::Mp4,
        quality: QualityPreset::Balanced,
        target_mb: None,
        lossless: false,
        output_height: None,
        video_kbps: None,
        effects,
    }
}

/// How far the test export got.
#[derive(Debug)]
pub enum TestExport {
    /// The folder for it could not be made.
    NoFolder { dir: String },
    /// The clip for it could not be made, for this reason.
    NoSource { detail: String },
    /// FFmpeg ended well, and wrote this many bytes.
    Wrote { size: u64, output: String, encoder: String },
    /// FFmpeg ended badly, and said this.
    Failed { stderr: String },
    /// FFmpeg could not be started, for this reason.
    NotStarted { error: String },
}

/// Whether the test export worked, what the user is told, and what there is to add.
pub open spec fn diagnosis(t: TestExport) -> (bool, Seq<char>, Seq<char>) {
    match t {
        TestExport::NoFolder { dir } => (
            false,
            "The temp folder could not be written to."@,
            "Tried to create "@ + dir@,
        ),
        TestExport::NoSource { detail } => (false, "A test clip could not be made."@, detail@),
        TestExport::Wrote { size, output, encoder } => if size == 0 {
            (false, "FFmpeg reported success but wrote nothing."@, output@ + " is empty."@)
        } else {
            (
                true,
                "Exported "@ + number::decimal((size / 1024) as nat) + " KB with "@ + encoder@ + "."@,
                Seq::empty(),
            )
        },
        TestExport::Failed { stderr } => (false, "The test export failed."@, text::trimmed(stderr@)),
        TestExport::NotStarted { error } => (false, "FFmpeg could not be started."@, error@),
    }
}

/// Whether the test export worked, what the user is told, and what there is to add. That FFmpeg
/// answers a version run proves far less than it looks: only an encode shows what is missing.
pub fn diagnose(t: &TestExport) -> (r: (bool, String, String))
    ensures
        (r.0, r.1@, r.2@) == diagnosis(*t),
{
    match t {
        TestExport::NoFolder { dir } => (
            false,
            "The temp folder could not be written to.".to_string(),
            joined_to("Tried to create ", copy(dir)),
        ),
        TestExport::NoSource { detail } => (
            false,
            "A test clip could not be made.".to_string(),
            copy(detail),
        ),
        TestExport::Wrote { size, output, encoder } => {
            if *size == 0 {
                let mut detail = copy(output);
                detail.append(" is empty.");
                return (false, "FFmpeg reported success but wrote nothing.".to_string(), detail);
            }
            let mut message = joined_to("Exported ", decimal_text(*size / 1024));
            message.append(" KB with ");
            message.append(encoder.as_str());
            message.append(".");
            let nothing = String::new();
            proof {
                assert(nothing@ =~= Seq::<char>::empty());
            }
            (true, message, nothing)
        },
        TestExport::Failed { stderr } => (
            false,
            "The test export failed.".to_string(),
            trim_text(stderr.as_str()),
        ),
        TestExport::NotStarted { error } => (
            false,
            "FFmpeg could not be started.".to_string(),
            copy(error),
        ),
    }
}

/// The result of a test export, or of one that did not finish in time.
pub fn diagnostic_result(outcome: Option<(bool, String, String)>, millis: u64) -> (r: DiagnosticResult)
    ensures
        r.millis == millis,
        outcome matches Some((success, message, detail)) ==> r.success == success && r.message
            == message && r.detail == detail,
        outcome is None ==> !r.success && r.message@ == "The test export did not finish."@ && r.detail@
            == "FFmpeg was still running after 60 seconds. That usually means it is waiting on a device that is not answering - a hardware encoder on a sleeping GPU is the common one. Setting the encoder to software in Settings works around it."@,
{
    match outcome {
        Some((success, message, detail)) => DiagnosticResult { success, message, detail, millis },
        None => DiagnosticResult {
            success: false,
            message: "The test export did not finish.".to_string(),
            detail:
                "FFmpeg was still running after 60 seconds. That usually means it is waiting on a device that is not answering - a hardware encoder on a sleeping GPU is the common one. Setting the encoder to software in Settings works around it.".to_string(),
            millis,
        },
    }
}

} // verus!
