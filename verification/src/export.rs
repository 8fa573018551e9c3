//! Running an export: which jobs are refused, which encoder is used, one export at a time, and
//! what is made of the way FFmpeg ended.

use vstd::prelude::*;
use vstd::string::*;

use crate::filters;
use crate::job;
use crate::job::{ramp_segments, ExportFormat, ExportJob, MediaInfo, QualityPreset};
use crate::number::ONE;
use crate::ramp;
use crate::ramp::{audio_stages, has_ramp, AUDIO_STEP_SECONDS};
use crate::settings::EncoderPreference;
use crate::text;
use crate::text::{chars_of, is_blank, is_white, join, lowercase, starts, trim_text};

verus! {

broadcast use {crate::text::texts_push, crate::text::texts_add};

// --- What is refused ---

/// The folder that a job's file goes into.
#[derive(Debug, Clone)]
pub enum OutputFolder {
    /// The path names no file at all.
    NotAFile,
    /// The path is a bare name, so the folder is the working one.
    Working,
    /// The folder, as it is written, is not there.
    Missing(String),
    Present,
}

/// What a job's numbers and paths are found to be, outside the job itself.
#[derive(Debug, Clone)]
pub struct JobFacts {
    /// Both trim points are numbers rather than infinities.
    pub trim_finite: bool,
    pub speed_finite: bool,
    pub volume_finite: bool,
    pub target_finite: bool,
    pub input_is_file: bool,
    pub folder: OutputFolder,
}

/// The heights on offer. This is the only thing keeping an arbitrary one out of a job.
pub open spec fn offered(height: i64) -> bool {
    height == 2160 || height == 1440 || height == 1080 || height == 720 || height == 480 || height
        == 360
}

/// Why a size target cannot be met. A gif's size is a function of its content, and two of the
/// sound formats keep every sample.
pub open spec fn target_refusal(job: ExportJob, facts: JobFacts) -> Option<Seq<char>> {
    if !(job.quality is Fit) {
        None
    } else if job.format is Gif {
        Some("A GIF cannot be fitted under a size target."@)
    } else if job.format is Wav || job.format is Flac {
        Some("WAV and FLAC cannot be fitted under a size target."@)
    } else {
        match job.target_mb {
            Some(mb) => if facts.target_finite && 500_000_000 <= mb <= 10_000_000_000_000 {
                None
            } else {
                Some("The target size has to be between 0.5 and 10000 MB."@)
            },
            None => Some("The target size has to be between 0.5 and 10000 MB."@),
        }
    }
}

/// What is wrong with a job's numbers, the first of them that is.
pub open spec fn number_refusal(job: ExportJob, facts: JobFacts) -> Option<Seq<char>> {
    if !facts.trim_finite {
        Some("The trim points are not valid numbers."@)
    } else if job.in_point < 0 {
        Some("The in point is before the start of the clip."@)
    } else if job.out_point <= job.in_point {
        Some("The trim range is empty. Move the out point after the in point."@)
    } else if !facts.speed_finite || !(50_000_000 <= job.speed <= 20_000_000_000) {
        Some("Speed has to be between 0.05x and 20x."@)
    } else if !facts.volume_finite || !(0 <= job.volume <= 2_000_000_000) {
        Some("Volume has to be between 0% and 200%."@)
    } else if target_refusal(job, facts) is Some {
        target_refusal(job, facts)
    } else if job.output_height is Some && !offered(job.output_height->0) {
        Some("The output size has to be 2160, 1440, 1080, 720, 480 or 360."@)
    } else if job.video_kbps is Some && !(50 <= job.video_kbps->0 <= 200_000) {
        Some("The video bitrate has to be between 50 and 200000 kbps."@)
    } else if job.video_kbps is Some && job.quality is Fit {
        Some("A size target works out its own bitrate, so it cannot be given one as well."@)
    } else if job.mute && job.format.audio() {
        Some("A muted audio export would be silence."@)
    } else if job.lossless && (job.reverse || job.volume != ONE || job.format.audio()
        || job.format is Gif) {
        Some(
            "A lossless export copies the video as it is, so it cannot reverse, change the volume, or change to an audio or GIF format."@,
        )
    } else if job.lossless && job.effects.on() {
        Some("A lossless export copies the video as it is, so it cannot apply effects."@)
    } else {
        None
    }
}

/// What is wrong with a job's files, the first of them that is. `overwrites` says that the file
/// to write is the one being edited: writing begins before the first frame is read, so that would
/// destroy it.
pub open spec fn file_refusal(job: ExportJob, facts: JobFacts, overwrites: bool) -> Option<Seq<char>> {
    if !facts.input_is_file {
        Some("The source video is no longer there. It may have been moved or deleted."@)
    } else if overwrites {
        Some("Pick a different name: this would overwrite the video you are editing."@)
    } else if facts.folder is NotAFile {
        Some("The export path is not a file path."@)
    } else if facts.folder is Missing {
        Some("The folder for the exported file does not exist: "@ + facts.folder->Missing_0@)
    } else if job.crop is Some && (job.crop->0.w <= 0 || job.crop->0.h <= 0) {
        Some("The crop rectangle is empty."@)
    } else {
        None
    }
}

/// Why a job is refused, if it is.
pub open spec fn refusal(job: ExportJob, facts: JobFacts, overwrites: bool) -> Option<Seq<char>> {
    if number_refusal(job, facts) is Some {
        number_refusal(job, facts)
    } else {
        file_refusal(job, facts, overwrites)
    }
}

/// An answer that is an error for exactly this reason.
pub open spec fn answers(r: Result<(), String>, reason: Option<Seq<char>>) -> bool {
    &&& r is Ok <==> reason is None
    &&& r matches Err(e) ==> e@ == reason->0
}

fn check_target(job: &ExportJob, facts: &JobFacts) -> (r: Result<(), String>)
    ensures
        answers(r, target_refusal(*job, *facts)),
{
    if job.quality != QualityPreset::Fit {
        return Ok(());
    }
    if job.format == ExportFormat::Gif {
        return Err("A GIF cannot be fitted under a size target.".to_string());
    }
    if job.format == ExportFormat::Wav || job.format == ExportFormat::Flac {
        return Err("WAV and FLAC cannot be fitted under a size target.".to_string());
    }
    if let Some(mb) = job.target_mb {
        if facts.target_finite && 500_000_000 <= mb && mb <= 10_000_000_000_000 {
            return Ok(());
        }
    }
    Err("The target size has to be between 0.5 and 10000 MB.".to_string())
}

fn check_numbers(job: &ExportJob, facts: &JobFacts) -> (r: Result<(), String>)
    ensures
        answers(r, number_refusal(*job, *facts)),
{
    if !facts.trim_finite {
        return Err("The trim points are not valid numbers.".to_string());
    }
    if job.in_point < 0 {
        return Err("The in point is before the start of the clip.".to_string());
    }
    if job.out_point <= job.in_point {
        return Err("The trim range is empty. Move the out point after the in point.".to_string());
    }
    // Wider than the slider on purpose: the number input goes to 0.05..20.
    if !facts.speed_finite || job.speed < 50_000_000 || job.speed > 20_000_000_000 {
        return Err("Speed has to be between 0.05x and 20x.".to_string());
    }
    if !facts.volume_finite || job.volume < 0 || job.volume > 2_000_000_000 {
        return Err("Volume has to be between 0% and 200%.".to_string());
    }
    match check_target(job, facts) {
        Err(e) => {
            return Err(e);
        },
        Ok(()) => {},
    }
    if let Some(height) = job.output_height {
        if !(height == 2160 || height == 1440 || height == 1080 || height == 720 || height == 480
            || height == 360) {
            return Err("The output size has to be 2160, 1440, 1080, 720, 480 or 360.".to_string());
        }
    }
    if let Some(kbps) = job.video_kbps {
        if kbps < 50 || kbps > 200_000 {
            return Err("The video bitrate has to be between 50 and 200000 kbps.".to_string());
        }
        if job.quality == QualityPreset::Fit {
            return Err(
                "A size target works out its own bitrate, so it cannot be given one as well.".to_string(),
            );
        }
    }
    if job.mute && job.format.is_audio() {
        return Err("A muted audio export would be silence.".to_string());
    }
    if job.lossless && (job.reverse || job.volume != 1_000_000_000 || job.format.is_audio()
        || job.format == ExportFormat::Gif) {
        return Err(
            "A lossless export copies the video as it is, so it cannot reverse, change the volume, or change to an audio or GIF format.".to_string(),
        );
    }
    if job.lossless && job.effects.any() {
        return Err(
            "A lossless export copies the video as it is, so it cannot apply effects.".to_string(),
        );
    }
    Ok(())
}

fn check_files(job: &ExportJob, facts: &JobFacts, overwrites: bool) -> (r: Result<(), String>)
    ensures
        answers(r, file_refusal(*job, *facts, overwrites)),
{
    if !facts.input_is_file {
        return Err(
            "The source video is no longer there. It may have been moved or deleted.".to_string(),
        );
    }
    if overwrites {
        return Err(
            "Pick a different name: this would overwrite the video you are editing.".to_string(),
        );
    }
    match &facts.folder {
        OutputFolder::NotAFile => {
            return Err("The export path is not a file path.".to_string());
        },
        OutputFolder::Missing(dir) => {
            let mut message = "The folder for the exported file does not exist: ".to_string();
            message.append(dir.as_str());
            return Err(message);
        },
        _ => {},
    }
    if let Some(crop) = job.crop {
        // A negative origin is the ordinary result of dragging past an edge.
        if crop.w <= 0 || crop.h <= 0 {
            return Err("The crop rectangle is empty.".to_string());
        }
    }
    Ok(())
}

/// Checks a job, given whether it would write over the video being edited.
pub fn validate_named(job: &ExportJob, facts: &JobFacts, overwrites: bool) -> (r: Result<(), String>)
    ensures
        answers(r, refusal(*job, *facts, overwrites)),
{
    match check_numbers(job, facts) {
        Err(e) => Err(e),
        Ok(()) => check_files(job, facts, overwrites),
    }
}

/// Checks a job before anything is run. A job arrives from outside, so whatever the user
/// interface greys out is no guarantee. Paths compare without regard to case.
pub fn validate(job: &ExportJob, facts: &JobFacts) -> (r: Result<(), String>)
    ensures
        answers(
            r,
            refusal(*job, *facts, text::lowercased(job.input@) == text::lowercased(job.output@)),
        ),
{
    let from = lowercase(job.input.as_str());
    let to = lowercase(job.output.as_str());
    let overwrites = *from.as_str() == *to.as_str();
    validate_named(job, facts, overwrites)
}

/// A job that passes has a trim with something in it, a speed and a volume in range, and no more
/// than one say about its rate.
pub proof fn law_passed_job_is_sound(job: ExportJob, facts: JobFacts, overwrites: bool)
    requires
        refusal(job, facts, overwrites) is None,
    ensures
        0 <= job.in_point < job.out_point,
        50_000_000 <= job.speed <= 20_000_000_000,
        0 <= job.volume <= 2 * ONE,
        job.quality is Fit ==> {
            &&& job.video_kbps is None
            &&& job.target_mb is Some
            &&& !(job.format is Gif || job.format is Wav || job.format is Flac)
        },
        job.format.audio() ==> !job.mute && !job.lossless,
        job.lossless ==> !job.reverse && job.volume == ONE && !job.effects.on(),
        !overwrites,
        job.crop matches Some(r) ==> r.w > 0 && r.h > 0,
        job::source_length(job) > 0,
{
}

/// Why a job that was checked still cannot run against what was found in its source and on this
/// machine.
pub open spec fn source_refusal(
    job: ExportJob,
    has_audio: bool,
    has_font: bool,
    draws_text: bool,
) -> Option<Seq<char>> {
    let keeps_sound = job.format.audio() || (has_audio && !job.mute && !(job.format is Gif));
    if job.format.audio() && !has_audio {
        Some("This video has no audio track to export."@)
    } else if job.lossless {
        None
    } else if !job.format.audio() && job.effects.text is Some && !has_font {
        Some("No font was found to draw the text with."@)
    } else if !job.format.audio() && job.effects.text is Some && !draws_text {
        Some("This FFmpeg was built without the filter that draws text."@)
    } else if keeps_sound && ramp::ramped(job.ramp@) && job::job_segments(job).len() > 0
        && ramp::sounded(job::job_segments(job), AUDIO_STEP_SECONDS as int) is None {
        Some("The speed curve is too wide for the sound to follow."@)
    } else {
        None
    }
}

/// Checks a job against its probed source, before the command is built.
pub fn check_source(job: &ExportJob, info: &MediaInfo, has_font: bool, draws_text: bool) -> (r: Result<
    (),
    String,
>)
    ensures
        answers(r, source_refusal(*job, info.has_audio, has_font, draws_text)),
{
    let audio = job.format.is_audio();
    if audio && !info.has_audio {
        return Err("This video has no audio track to export.".to_string());
    }
    if job.lossless {
        return Ok(());
    }
    if !audio && job.effects.text.is_some() {
        if !has_font {
            return Err("No font was found to draw the text with.".to_string());
        }
        if !draws_text {
            return Err("This FFmpeg was built without the filter that draws text.".to_string());
        }
    }
    let keeps_sound = audio || (info.has_audio && !job.mute && job.format != ExportFormat::Gif);
    if keeps_sound && has_ramp(job.ramp.as_slice()) {
        let segs = ramp_segments(job);
        if segs.len() > 0 && audio_stages(segs.as_slice(), AUDIO_STEP_SECONDS).is_none() {
            return Err("The speed curve is too wide for the sound to follow.".to_string());
        }
    }
    Ok(())
}

/// A job that passes both checks never has its sound fall back to another speed than its curve's.
pub proof fn law_checked_sound_follows_its_curve(
    job: ExportJob,
    has_audio: bool,
    has_font: bool,
    draws_text: bool,
)
    requires
        source_refusal(job, has_audio, has_font, draws_text) is None,
        !job.lossless,
        job.format.audio() || (has_audio && !job.mute && !(job.format is Gif)),
        ramp::ramped(job.ramp@),
        job::job_segments(job).len() > 0,
    ensures
        ramp::sounded(job::job_segments(job), AUDIO_STEP_SECONDS as int) is Some,
        filters::tempo_stages(job) == ramp::sounded(
            job::job_segments(job),
            AUDIO_STEP_SECONDS as int,
        )->0,
{
}

// --- The encoder ---

/// The hardware encoders in the order they are tried, by how much of the processor they leave
/// free.
pub open spec fn candidate_text(i: int) -> Seq<char> {
    if i == 0 {
        "h264_nvenc"@
    } else if i == 1 {
        "h264_qsv"@
    } else {
        "h264_amf"@
    }
}

/// The search for an encoder. A missing graphics card fails at run time rather than being absent
/// from a listing, so each candidate is test-run.
#[derive(Debug, Clone)]
pub struct EncoderSearch {
    /// The encoder that passed, kept for the life of the process.
    pub cached: Option<String>,
    /// How many candidates have failed in this search.
    pub failed: usize,
}

/// What to do next about the encoder.
#[derive(Debug, Clone)]
pub enum EncoderStep {
    Use(String),
    Test(String),
}

impl EncoderSearch {
    /// A search from the start, with what an earlier one found.
    pub fn new(cached: Option<String>) -> (r: EncoderSearch)
        ensures
            r.cached == cached,
            r.failed == 0,
    {
        EncoderSearch { cached, failed: 0 }
    }

    /// An encoder that passed is used; otherwise the next candidate is tested, and after the last
    /// the software encoder is used.
    pub fn step(&self) -> (r: EncoderStep)
        ensures
            match (self.cached, r) {
                (Some(name), EncoderStep::Use(n)) => n@ == name@,
                (Some(_), EncoderStep::Test(_)) => false,
                (None, EncoderStep::Test(n)) => self.failed < 3 && n@ == candidate_text(
                    self.failed as int,
                ),
                (None, EncoderStep::Use(n)) => self.failed >= 3 && n@ == "libx264"@,
            },
    {
        if let Some(name) = &self.cached {
            return EncoderStep::Use(name.as_str().to_string());
        }
        if self.failed == 0 {
            EncoderStep::Test("h264_nvenc".to_string())
        } else if self.failed == 1 {
            EncoderStep::Test("h264_qsv".to_string())
        } else if self.failed == 2 {
            EncoderStep::Test("h264_amf".to_string())
        } else {
            EncoderStep::Use("libx264".to_string())
        }
    }

    /// Takes in how the test of a candidate went. Nothing is kept when none passes: FFmpeg may
    /// not be reachable yet.
    pub fn tested(&mut self, name: String, passed: bool)
        requires
            old(self).failed < 3,
        ensures
            passed ==> final(self).cached == Some(name) && final(self).failed == old(self).failed,
            !passed ==> final(self).cached == old(self).cached && final(self).failed == old(self).failed
                + 1,
    {
        if passed {
            self.cached = Some(name);
        } else {
            self.failed += 1;
        }
    }
}

/// Whether an export has a use for a hardware encoder: only these containers read it, and the
/// user can forbid it.
pub fn wants_hardware(format: ExportFormat, preference: EncoderPreference) -> (r: bool)
    ensures
        r == (preference is Auto && (format is Mp4 || format is Mov || format is Mkv)),
{
    preference == EncoderPreference::Auto && (format == ExportFormat::Mp4 || format
        == ExportFormat::Mov || format == ExportFormat::Mkv)
}

/// Where the encoder comes from.
#[derive(Debug, Clone)]
pub enum EncoderChoice {
    /// This one, in software.
    Software(String),
    /// Whichever an [`EncoderSearch`] ends with.
    Search,
}

/// Where the encoder of an export to this format comes from, or that of exports at large. Software
/// is usually asked for because the test runs hang or wake a second graphics card.
pub fn choose_encoder(format: Option<ExportFormat>, preference: EncoderPreference) -> (r: EncoderChoice)
    ensures
        r is Search <==> preference is Auto && (format is None || format->0 is Mp4 || format->0 is Mov
            || format->0 is Mkv),
        r matches EncoderChoice::Software(name) ==> name@ == "libx264"@,
{
    let hardware = match format {
        Some(f) => wants_hardware(f, preference),
        None => preference == EncoderPreference::Auto,
    };
    if hardware {
        EncoderChoice::Search
    } else {
        EncoderChoice::Software("libx264".to_string())
    }
}

/// The command that test-runs an encoder on one frame of nothing.
pub fn test_encode_args(encoder: &str) -> (r: Vec<String>)
    ensures
        text::texts(r@) == seq![
            "-hide_banner"@,
            "-loglevel"@,
            "error"@,
            "-f"@,
            "lavfi"@,
            "-i"@,
            "nullsrc=s=256x144"@,
            "-frames:v"@,
            "1"@,
            "-c:v"@,
            encoder@,
            "-f"@,
            "null"@,
            "-"@,
        ],
{
    let mut args: Vec<String> = Vec::new();
    args.push("-hide_banner".to_string());
    args.push("-loglevel".to_string());
    args.push("error".to_string());
    args.push("-f".to_string());
    args.push("lavfi".to_string());
    args.push("-i".to_string());
    args.push("nullsrc=s=256x144".to_string());
    args.push("-frames:v".to_string());
    args.push("1".to_string());
    args.push("-c:v".to_string());
    args.push(encoder.to_string());
    args.push("-f".to_string());
    args.push("null".to_string());
    args.push("-".to_string());
    args
}

// --- One export at a time ---

/// The one export that runs at a time, plus how it ended. A cancel and a process dying on its own
/// look alike from outside, so the two stand side by side.
#[derive(Debug, Clone, Copy, PartialEq, Eq, Structural)]
pub struct ExportSlot {
    pub running: bool,
    pub cancelled: bool,
}

impl ExportSlot {
    pub fn new() -> (r: ExportSlot)
        ensures
            r == (ExportSlot { running: false, cancelled: false }),
    {
        ExportSlot { running: false, cancelled: false }
    }

    /// Whether an export may begin.
    pub fn check_free(&self) -> (r: Result<(), String>)
        ensures
            r is Ok <==> !self.running,
            r matches Err(e) ==> e@ == "An export is already running. Cancel it first."@,
    {
        if self.running {
            Err("An export is already running. Cancel it first.".to_string())
        } else {
            Ok(())
        }
    }

    /// Begins an export. Two processes on one output write a corrupt file and neither of them
    /// reports an error, so a second is refused.
    pub fn begin(&mut self) -> (r: Result<(), String>)
        ensures
            r is Ok <==> !old(self).running,
            r is Ok ==> *final(self) == (ExportSlot { running: true, cancelled: false }),
            r matches Err(e) ==> *final(self) == *old(self) && e@
                == "An export is already running. Cancel it first."@,
    {
        match self.check_free() {
            Err(e) => Err(e),
            Ok(()) => {
                self.running = true;
                self.cancelled = false;
                Ok(())
            },
        }
    }

    /// Cancels the export; answers whether there is a process to kill.
    pub fn cancel(&mut self) -> (r: bool)
        ensures
            r == old(self).running,
            *final(self) == (ExportSlot { cancelled: true, ..*old(self) }),
    {
        self.cancelled = true;
        self.running
    }

    /// Takes the export out once its output has ended; answers whether it had been cancelled.
    pub fn finish(&mut self) -> (r: bool)
        ensures
            r == old(self).cancelled,
            *final(self) == (ExportSlot { running: false, ..*old(self) }),
    {
        self.running = false;
        self.cancelled
    }
}

/// An export that was cancelled is never reported as one that ended, whichever came first.
pub proof fn law_cancel_wins(began: ExportSlot)
    requires
        began == (ExportSlot { running: true, cancelled: false }),
    ensures
        ({
            let cancelled = ExportSlot { cancelled: true, ..began };
            let ended = ExportSlot { running: false, ..cancelled };
            &&& forall|exit: Exit, tail: Seq<Seq<char>>, output: Seq<char>|
                #[trigger] ending(ended.cancelled, exit, tail, output) == Ending::Discarded
            &&& !ended.running
        }),
{
}

/// What the application holds on to while it runs.
#[derive(Debug, Clone)]
pub struct AppState {
    /// The encoder that passed its test: far too slow to find again for each export.
    pub encoder: Option<String>,
    pub export: ExportSlot,
}

impl AppState {
    pub fn new() -> (r: AppState)
        ensures
            r.encoder is None,
            r.export == (ExportSlot { running: false, cancelled: false }),
    {
        AppState { encoder: None, export: ExportSlot::new() }
    }
}

// --- What FFmpeg said ---

/// The lines that are not blank.
pub open spec fn spoken(lines: Seq<Seq<char>>) -> Seq<Seq<char>>
    decreases lines.len(),
{
    if lines.len() == 0 {
        Seq::empty()
    } else {
        let before = spoken(lines.drop_last());
        if text::trimmed(lines.last()).len() == 0 {
            before
        } else {
            before.push(lines.last())
        }
    }
}

/// The last `n` of a list.
pub open spec fn last_of(lines: Seq<Seq<char>>, n: int) -> Seq<Seq<char>> {
    if lines.len() <= n {
        lines
    } else {
        lines.skip(lines.len() - n)
    }
}

/// Enough lines for the real complaint; a thousand warnings must not push it out.
pub const STDERR_TAIL_LINES: usize = 40;

/// The end of what FFmpeg wrote, gathered a line at a time. Lines are kept raw: the leading white
/// space is what tells the indented inventory apart from an error message.
pub struct StderrTail {
    lines: Vec<String>,
}

impl View for StderrTail {
    type V = Seq<Seq<char>>;

    closed spec fn view(&self) -> Seq<Seq<char>> {
        text::texts(self.lines@)
    }
}

impl StderrTail {
    pub fn new() -> (r: StderrTail)
        ensures
            r@ == Seq::<Seq<char>>::empty(),
    {
        let r = StderrTail { lines: Vec::new() };
        proof {
            assert(r@ =~= Seq::<Seq<char>>::empty());
        }
        r
    }

    /// Takes in one line.
    pub fn push(&mut self, line: String)
        ensures
            final(self)@ == (if text::trimmed(line@).len() == 0 {
                old(self)@
            } else {
                last_of(old(self)@.push(line@), STDERR_TAIL_LINES as int)
            }),
    {
        broadcast use crate::text::texts_len;

        if is_blank(line.as_str()) {
            return;
        }
        let ghost spelled = line@;
        let ghost before = text::texts(self.lines@);
        proof {
            assert(text::texts(self.lines@) =~= before.skip(0));
        }
        while self.lines.len() >= STDERR_TAIL_LINES
            invariant
                self.lines@.len() <= before.len(),
                self.lines@.len() == before.len() || self.lines@.len() >= STDERR_TAIL_LINES - 1,
                text::texts(self.lines@) == before.skip(before.len() - self.lines@.len()),
            decreases self.lines@.len(),
        {
            let ghost lines = self.lines@;
            self.lines.remove(0);
            proof {
                assert(text::texts(self.lines@) =~= text::texts(lines).skip(1));
                assert(text::texts(self.lines@) =~= before.skip(before.len() - self.lines@.len()));
            }
        }
        self.lines.push(line);
        proof {
            assert(self@ =~= last_of(before.push(spelled), STDERR_TAIL_LINES as int));
        }
    }

    /// The message for an export that failed.
    pub fn explain(&self) -> (r: String)
        ensures
            r@ == explanation(self@),
    {
        explain_failure(&self.lines)
    }
}

/// Gathered a line at a time or all at once, the tail is the last lines that say something.
pub proof fn law_tail_is_the_end_of_what_was_said(before: Seq<Seq<char>>, line: Seq<char>)
    ensures
        last_of(spoken(before.push(line)), STDERR_TAIL_LINES as int) == (if text::trimmed(line).len()
            == 0 {
            last_of(spoken(before), STDERR_TAIL_LINES as int)
        } else {
            last_of(
                last_of(spoken(before), STDERR_TAIL_LINES as int).push(line),
                STDERR_TAIL_LINES as int,
            )
        }),
        last_of(spoken(before), STDERR_TAIL_LINES as int).len() <= STDERR_TAIL_LINES,
{
    assert(before.push(line).drop_last() =~= before);
    if text::trimmed(line).len() != 0 {
        let n = STDERR_TAIL_LINES as int;
        assert(last_of(spoken(before).push(line), n) =~= last_of(
            last_of(spoken(before), n).push(line),
            n,
        ));
    }
}

/// Whether a line is part of the inventory FFmpeg prints on the way in, rather than a complaint.
pub open spec fn inventory(line: Seq<char>) -> bool {
    ||| line.len() > 0 && text::white(line[0])
    ||| text::begins(line, "ffmpeg version"@)
    ||| text::begins(line, "built with"@)
    ||| text::begins(line, "configuration:"@)
    ||| text::begins(line, "lib"@)
    ||| text::begins(line, "Input #"@)
    ||| text::begins(line, "Output #"@)
    ||| text::begins(line, "Stream #"@)
    ||| text::begins(line, "Stream mapping:"@)
    ||| text::begins(line, "Metadata:"@)
    ||| text::begins(line, "Duration:"@)
    ||| text::begins(line, "frame="@)
    ||| text::begins(line, "Press ["@)
}

/// The complaints among the lines, without the white space around them.
pub open spec fn complaints(lines: Seq<Seq<char>>) -> Seq<Seq<char>>
    decreases lines.len(),
{
    if lines.len() == 0 {
        Seq::empty()
    } else {
        let before = complaints(lines.drop_last());
        if inventory(lines.last()) {
            before
        } else {
            before.push(text::trimmed(lines.last()))
        }
    }
}

/// What the user is told of a failure: the last three complaints. The very last line is often
/// "Conversion failed!", which says nothing.
pub open spec fn explanation(tail: Seq<Seq<char>>) -> Seq<char> {
    let said = last_of(complaints(tail), 3);
    if said.len() == 0 {
        "FFmpeg failed without saying why. The source file may be damaged."@
    } else {
        text::joined(said, "\n"@)
    }
}

fn is_inventory(line: &str) -> (r: bool)
    ensures
        r == inventory(line@),
{
    let chars = chars_of(line);
    (chars.len() > 0 && is_white(chars[0])) || starts(line, "ffmpeg version") || starts(
        line,
        "built with",
    ) || starts(line, "configuration:") || starts(line, "lib") || starts(line, "Input #") || starts(
        line,
        "Output #",
    ) || starts(line, "Stream #") || starts(line, "Stream mapping:") || starts(line, "Metadata:")
        || starts(line, "Duration:") || starts(line, "frame=") || starts(line, "Press [")
}

/// The message for an export that failed, from the end of what FFmpeg said.
pub fn explain_failure(tail: &Vec<String>) -> (r: String)
    ensures
        r@ == explanation(text::texts(tail@)),
{
    broadcast use crate::text::texts_len;

    let mut picked: Vec<String> = Vec::new();
    let mut i: usize = 0;
    proof {
        assert(text::texts(picked@) =~= last_of(complaints(text::texts(tail@).take(0)), 3));
    }
    while i < tail.len()
        invariant
            i <= tail.len(),
            picked.len() <= 3,
            text::texts(picked@) == last_of(complaints(text::texts(tail@).take(i as int)), 3),
        decreases tail.len() - i,
    {
        let line = tail[i].as_str();
        let ghost all = text::texts(tail@);
        proof {
            assert(all.take(i + 1).drop_last() =~= all.take(i as int));
            assert(all.take(i + 1).last() == line@);
        }
        if !is_inventory(line) {
            let said = trim_text(line);
            let ghost spelled = said@;
            let ghost before = picked@;
            if picked.len() == 3 {
                picked.remove(0);
                proof {
                    assert(text::texts(picked@) =~= text::texts(before).skip(1));
                }
            }
            picked.push(said);
            proof {
                assert(text::texts(picked@) =~= last_of(
                    complaints(all.take(i as int)).push(spelled),
                    3,
                ));
            }
        }
        i += 1;
    }
    proof {
        assert(text::texts(tail@).take(tail.len() as int) =~= text::texts(tail@));
    }
    if picked.len() == 0 {
        return "FFmpeg failed without saying why. The source file may be damaged.".to_string();
    }
    join(&picked, "\n")
}

// --- How it ended ---

/// How a process ended, as far as could be told.
#[derive(Debug, Clone, Copy, PartialEq, Eq, Structural)]
pub enum Exit {
    Success,
    Failure,
    Unknown,
}

/// What comes of an export, in terms of what it spells.
pub enum Ending {
    /// A half-written file wearing the final name looks like a finished export: remove it, and
    /// say nothing.
    Discarded,
    Done(Seq<char>),
    Failed(Seq<char>),
}

pub open spec fn ending(
    cancelled: bool,
    exit: Exit,
    tail: Seq<Seq<char>>,
    output: Seq<char>,
) -> Ending {
    if cancelled {
        Ending::Discarded
    } else {
        match exit {
            Exit::Success => Ending::Done(output),
            Exit::Failure => Ending::Failed(explanation(tail)),
            Exit::Unknown => Ending::Failed(
                "FFmpeg stopped unexpectedly and the export did not finish."@,
            ),
        }
    }
}

/// What comes of an export.
#[derive(Debug, Clone)]
pub enum Outcome {
    Discard,
    Done(String),
    Failed(String),
}

impl View for Outcome {
    type V = Ending;

    open spec fn view(&self) -> Ending {
        match self {
            Outcome::Discard => Ending::Discarded,
            Outcome::Done(s) => Ending::Done(s@),
            Outcome::Failed(s) => Ending::Failed(s@),
        }
    }
}

/// What comes of an export that has ended.
pub fn conclude(cancelled: bool, exit: Exit, tail: &StderrTail, output: String) -> (r: Outcome)
    ensures
        r@ == ending(cancelled, exit, tail@, output@),
{
    if cancelled {
        return Outcome::Discard;
    }
    match exit {
        Exit::Success => Outcome::Done(output),
        Exit::Failure => Outcome::Failed(tail.explain()),
        Exit::Unknown => Outcome::Failed(
            "FFmpeg stopped unexpectedly and the export did not finish.".to_string(),
        ),
    }
}

// --- What holds of every check ---

/// A job passes exactly where everything about it is in order: no sound job is refused and no
/// unsound one passes. Speed is 0.05 to 20 times, volume up to twice, a size target half a megabyte
/// to ten thousand, a named rate 50 to 200000 kilobits a second.
pub proof fn law_a_job_passes_where_it_is_in_order(job: ExportJob, facts: JobFacts, overwrites: bool)
    ensures
        refusal(job, facts, overwrites) is None <==> {
            &&& facts.trim_finite && facts.speed_finite && facts.volume_finite
            &&& 0 <= job.in_point < job.out_point
            &&& 50_000_000 <= job.speed <= 20_000_000_000
            &&& 0 <= job.volume <= 2_000_000_000
            &&& job.quality is Fit ==> {
                &&& !(job.format is Gif) && !(job.format is Wav) && !(job.format is Flac)
                &&& facts.target_finite
                &&& job.target_mb matches Some(mb) && 500_000_000 <= mb <= 10_000_000_000_000
                &&& job.video_kbps is None
            }
            &&& job.output_height matches Some(h) ==> h == 2160 || h == 1440 || h == 1080 || h == 720 || h == 480
                || h == 360
            &&& job.video_kbps matches Some(kbps) ==> 50 <= kbps <= 200_000
            &&& !(job.mute && job.format.audio())
            &&& job.lossless ==> {
                &&& !job.reverse
                &&& job.volume == 1_000_000_000
                &&& !job.format.audio() && !(job.format is Gif)
                &&& !job.effects.on()
            }
            &&& facts.input_is_file
            &&& !overwrites
            &&& !(facts.folder is NotAFile) && !(facts.folder is Missing)
            &&& job.crop matches Some(r) ==> r.w > 0 && r.h > 0
        },
{
}

/// A job that passed runs against its source exactly where the source has what it needs: sound to
/// export, and a font and a filter for text that is drawn. A curve holds it up only where its sound
/// is kept and cannot follow.
pub proof fn law_a_source_serves_where_it_has_what_is_needed(
    job: ExportJob,
    has_audio: bool,
    has_font: bool,
    draws_text: bool,
)
    ensures
        job.format.audio() && !has_audio ==> source_refusal(job, has_audio, has_font, draws_text) is Some,
        has_audio && has_font && draws_text && !ramp::ramped(job.ramp@) ==> source_refusal(
            job,
            has_audio,
            has_font,
            draws_text,
        ) is None,
        !job.lossless && !job.format.audio() && job.effects.text is Some && !(has_font && draws_text)
            ==> source_refusal(job, has_audio, has_font, draws_text) is Some,
        !job.format.audio() && (job.mute || !has_audio || job.format is Gif) && has_font && draws_text
            ==> source_refusal(job, has_audio, has_font, draws_text) is None,
{
}

/// A failure is explained by the last of what was complained of, three lines at most, in the order
/// it was said; a build's inventory of itself is no complaint.
pub proof fn law_the_last_complaints_explain(tail: Seq<Seq<char>>)
    ensures
        ({
            let said = complaints(tail);
            let n = said.len();
            &&& n == 0 ==> explanation(tail) == "FFmpeg failed without saying why. The source file may be damaged."@
            &&& 0 < n <= 3 ==> explanation(tail) == text::joined(said, "\n"@)
            &&& n > 3 ==> explanation(tail) == text::joined(seq![said[n - 3], said[n - 2], said[n - 1]], "\n"@)
        }),
        forall|line: Seq<char>| #[trigger]
            complaints(tail.push(line)) == (if inventory(line) {
                complaints(tail)
            } else {
                complaints(tail).push(text::trimmed(line))
            }),
{
    let said = complaints(tail);
    if said.len() > 3 {
        assert(said.skip(said.len() - 3) =~= seq![
            said[said.len() - 3],
            said[said.len() - 2],
            said[said.len() - 1],
        ]);
    }
    assert forall|line: Seq<char>| #[trigger]
        complaints(tail.push(line)) == (if inventory(line) {
            complaints(tail)
        } else {
            complaints(tail).push(text::trimmed(line))
        }) by {
        assert(tail.push(line).drop_last() =~= tail);
    }
}

} // verus!
