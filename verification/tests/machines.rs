use flipperclipper::debug::{
    diagnose, diagnostic_job, diagnostic_result, source_args, tool, TestExport,
};
use flipperclipper::download::{
    check_answer, fault_message, is_late, user_agent, Download, DownloadFault,
};
use flipperclipper::export::{
    check_source, choose_encoder, conclude, explain_failure, test_encode_args, validate,
    wants_hardware, AppState, EncoderChoice, EncoderSearch, EncoderStep, Exit, ExportSlot, JobFacts, Outcome, OutputFolder, StderrTail,
    STDERR_TAIL_LINES,
};
use flipperclipper::ffmpeg_install::{
    after_rename, is_aside, is_wanted, staged_tools, swap_failed, verify_staged, wanted_tools,
    InstallSlot, RenameStep, ALREADY_RUNNING, BINARY_WONT_RUN, RENAME_ATTEMPTS, ZIP_INCOMPLETE,
};
use flipperclipper::job::{
    ExportFormat, ExportJob, MediaInfo, QualityPreset, Rect, TextAnchorX, TextAnchorY, TextOverlay,
};
use flipperclipper::ramp::SpeedPoint;
use flipperclipper::settings::EncoderPreference;
use flipperclipper::version::Version;

fn q(v: f64) -> i64 {
    (v * 1e9).round() as i64
}

fn job() -> ExportJob {
    let mut j = diagnostic_job("in.mp4".to_string(), "out.mp4".to_string());
    j.effects.contrast = None;
    j.speed = q(1.0);
    j
}

fn facts() -> JobFacts {
    JobFacts {
        trim_finite: true,
        speed_finite: true,
        volume_finite: true,
        target_finite: true,
        input_is_file: true,
        folder: OutputFolder::Present,
    }
}

fn info() -> MediaInfo {
    MediaInfo {
        path: "in.mp4".to_string(),
        duration: q(10.0),
        width: 1920,
        height: 1080,
        fps: q(30.0),
        rotation: 0,
        has_audio: true,
        video_codec: "h264".to_string(),
        audio_codec: Some("aac".to_string()),
        size_bytes: 1,
    }
}

fn refused(change: fn(&mut ExportJob)) -> String {
    let mut j = job();
    change(&mut j);
    validate(&j, &facts()).expect_err("this job is refused")
}

#[test]
fn a_sound_job_passes() {
    assert_eq!(validate(&job(), &facts()), Ok(()));
    let mut f = facts();
    f.folder = OutputFolder::Working;
    assert_eq!(validate(&job(), &f), Ok(()));
}

#[test]
fn every_number_out_of_range_is_named() {
    assert_eq!(refused(|j| j.in_point = -1), "The in point is before the start of the clip.");
    assert_eq!(
        refused(|j| j.out_point = j.in_point),
        "The trim range is empty. Move the out point after the in point."
    );
    assert_eq!(refused(|j| j.speed = q(0.049)), "Speed has to be between 0.05x and 20x.");
    assert_eq!(refused(|j| j.speed = q(20.1)), "Speed has to be between 0.05x and 20x.");
    assert_eq!(refused(|j| j.volume = q(2.01)), "Volume has to be between 0% and 200%.");
    assert_eq!(refused(|j| j.volume = -1), "Volume has to be between 0% and 200%.");
    assert_eq!(
        refused(|j| j.quality = QualityPreset::Fit),
        "The target size has to be between 0.5 and 10000 MB."
    );
    assert_eq!(
        refused(|j| {
            j.quality = QualityPreset::Fit;
            j.format = ExportFormat::Gif;
        }),
        "A GIF cannot be fitted under a size target."
    );
    assert_eq!(
        refused(|j| {
            j.quality = QualityPreset::Fit;
            j.format = ExportFormat::Flac;
        }),
        "WAV and FLAC cannot be fitted under a size target."
    );
    assert_eq!(
        refused(|j| {
            j.mute = true;
            j.format = ExportFormat::Mp3;
        }),
        "A muted audio export would be silence."
    );
    let lossless = "A lossless export copies the video as it is, so it cannot reverse, change the volume, or change to an audio or GIF format.";
    assert_eq!(
        refused(|j| {
            j.lossless = true;
            j.reverse = true;
        }),
        lossless
    );
    assert_eq!(
        refused(|j| {
            j.lossless = true;
            j.format = ExportFormat::Gif;
        }),
        lossless
    );
    assert_eq!(
        refused(|j| {
            j.lossless = true;
            j.effects.blur = Some(q(4.0));
        }),
        "A lossless export copies the video as it is, so it cannot apply effects."
    );
    assert_eq!(
        refused(|j| j.crop = Some(Rect { x: 0, y: 0, w: 0, h: 10 })),
        "The crop rectangle is empty."
    );
}

#[test]
fn what_is_not_a_number_is_refused() {
    let mut f = facts();
    f.trim_finite = false;
    assert_eq!(
        validate(&job(), &f).unwrap_err(),
        "The trim points are not valid numbers."
    );
    let mut f = facts();
    f.speed_finite = false;
    assert_eq!(
        validate(&job(), &f).unwrap_err(),
        "Speed has to be between 0.05x and 20x."
    );
    let mut f = facts();
    f.volume_finite = false;
    assert_eq!(
        validate(&job(), &f).unwrap_err(),
        "Volume has to be between 0% and 200%."
    );
}

#[test]
fn files_are_checked_after_the_numbers() {
    let mut f = facts();
    f.input_is_file = false;
    assert_eq!(
        validate(&job(), &f).unwrap_err(),
        "The source video is no longer there. It may have been moved or deleted."
    );
    let mut f = facts();
    f.folder = OutputFolder::NotAFile;
    assert_eq!(validate(&job(), &f).unwrap_err(), "The export path is not a file path.");
    let mut f = facts();
    f.folder = OutputFolder::Missing("C:\\gone".to_string());
    assert_eq!(
        validate(&job(), &f).unwrap_err(),
        "The folder for the exported file does not exist: C:\\gone"
    );
    let mut j = job();
    j.input = "C:\\Clips\\A.MP4".to_string();
    j.output = "c:\\clips\\a.mp4".to_string();
    assert_eq!(
        validate(&j, &facts()).unwrap_err(),
        "Pick a different name: this would overwrite the video you are editing."
    );
}

#[test]
fn a_job_is_checked_against_its_source() {
    assert_eq!(check_source(&job(), &info(), false, false), Ok(()));

    let mut j = job();
    j.format = ExportFormat::Mp3;
    let mut silent = info();
    silent.has_audio = false;
    assert_eq!(
        check_source(&j, &silent, true, true).unwrap_err(),
        "This video has no audio track to export."
    );

    let mut j = job();
    j.effects.text = Some(TextOverlay {
        text: "hi".to_string(),
        size: q(0.1),
        color: "#ffffff".to_string(),
        opacity: q(1.0),
        anchor_x: TextAnchorX::Center,
        anchor_y: TextAnchorY::Middle,
        boxed: false,
    });
    assert_eq!(
        check_source(&j, &info(), false, true).unwrap_err(),
        "No font was found to draw the text with."
    );
    assert_eq!(
        check_source(&j, &info(), true, false).unwrap_err(),
        "This FFmpeg was built without the filter that draws text."
    );
    assert_eq!(check_source(&j, &info(), true, true), Ok(()));

    let mut j = job();
    j.in_point = q(0.0);
    j.out_point = q(5.0);
    j.ramp = vec![
        SpeedPoint { t: q(0.0), speed: q(0.05) },
        SpeedPoint { t: q(4.0), speed: q(20.0) },
    ];
    assert_eq!(
        check_source(&j, &info(), true, true).unwrap_err(),
        "The speed curve is too wide for the sound to follow."
    );
    // A trim too short to hold a piece of the curve runs at the one speed.
    let mut blink = j.clone();
    blink.out_point = q(0.001);
    assert_eq!(check_source(&blink, &info(), true, true), Ok(()));
    j.mute = true;
    assert_eq!(check_source(&j, &info(), true, true), Ok(()));
}

#[test]
fn encoders_are_tried_in_order_and_the_one_that_passes_is_kept() {
    let mut search = EncoderSearch::new(None);
    let mut tried = Vec::new();
    for _ in 0..3 {
        let EncoderStep::Test(name) = search.step() else {
            panic!("a candidate is left");
        };
        tried.push(name.clone());
        search.tested(name, false);
    }
    assert_eq!(tried, ["h264_nvenc", "h264_qsv", "h264_amf"]);
    assert!(matches!(search.step(), EncoderStep::Use(n) if n == "libx264"));
    assert!(search.cached.is_none());

    let mut search = EncoderSearch::new(None);
    search.tested("h264_nvenc".to_string(), true);
    assert!(matches!(search.step(), EncoderStep::Use(n) if n == "h264_nvenc"));
    assert!(test_encode_args("h264_amf").contains(&"h264_amf".to_string()));
    assert!(wants_hardware(ExportFormat::Mkv, EncoderPreference::Auto));
    assert!(!wants_hardware(ExportFormat::Mkv, EncoderPreference::Software));
    assert!(!wants_hardware(ExportFormat::Webm, EncoderPreference::Auto));
    let software = |choice| matches!(choice, EncoderChoice::Software(n) if n == "libx264");
    assert!(software(choose_encoder(None, EncoderPreference::Software)));
    assert!(software(choose_encoder(Some(ExportFormat::Gif), EncoderPreference::Auto)));
    assert!(!software(choose_encoder(None, EncoderPreference::Auto)));
    assert!(!software(choose_encoder(Some(ExportFormat::Mp4), EncoderPreference::Auto)));
}

#[test]
fn one_export_runs_at_a_time() {
    let mut slot = AppState::new().export;
    assert!(slot.check_free().is_ok());
    assert!(slot.begin().is_ok());
    assert!(slot.begin().is_err());
    assert!(slot.check_free().is_err());
    assert!(!slot.finish());
    assert!(slot.begin().is_ok());
    assert!(slot.cancel());
    assert!(slot.finish(), "a cancel wins over how the process ended");
    assert!(!ExportSlot::new().cancel(), "nothing to cancel");
}

#[test]
fn the_end_of_what_was_said_explains_a_failure() {
    let mut tail = StderrTail::new();
    tail.push("ffmpeg version 7.1".to_string());
    for n in 0..100 {
        tail.push(format!("complaint {n}"));
        tail.push("   ".to_string());
    }
    assert_eq!(tail.explain(), "complaint 97\ncomplaint 98\ncomplaint 99");
    let Outcome::Failed(message) = conclude(false, Exit::Failure, &tail, "out".to_string()) else {
        panic!("it failed");
    };
    assert_eq!(message, tail.explain());
    assert!(matches!(
        conclude(true, Exit::Success, &tail, "out".to_string()),
        Outcome::Discard
    ));
    assert!(matches!(
        conclude(false, Exit::Success, &tail, "out".to_string()),
        Outcome::Done(o) if o == "out"
    ));
    assert!(matches!(
        conclude(false, Exit::Unknown, &tail, "out".to_string()),
        Outcome::Failed(m) if m == "FFmpeg stopped unexpectedly and the export did not finish."
    ));
    assert_eq!(
        explain_failure(&vec!["  built with gcc".to_string(), "Input #0".to_string()]),
        "FFmpeg failed without saying why. The source file may be damaged."
    );
    assert_eq!(STDERR_TAIL_LINES, 40);
}

#[test]
fn a_bar_only_moves_forward() {
    let mut download = Download::new(Some(1000), Some(5));
    assert_eq!(download.chunk(5, false), None);
    assert_eq!(download.chunk(5, false), Some(q(0.01)));
    assert_eq!(download.chunk(1, true), Some(q(0.011)));
    assert_eq!(
        download.finish().unwrap_err(),
        "The download stopped early — got 11 bytes of the 1000 it should have. The incomplete file has been deleted; please try again."
    );
    assert_eq!(download.chunk(2000, false), Some(q(1.0)));
    let mut unknown = Download::new(None, None);
    assert_eq!(unknown.chunk(9, true), None);
    assert_eq!(unknown.finish(), Ok(q(1.0)));
    let mut whole = Download::new(None, Some(9));
    whole.chunk(9, false);
    assert_eq!(whole.finish(), Ok(q(1.0)));
    assert!(is_late(100) && !is_late(99));
}

#[test]
fn every_fault_has_its_words() {
    let cases = [
        (DownloadFault::Start, "Could not start the download: x"),
        (DownloadFault::Reach, "Could not reach the download: x"),
        (DownloadFault::Write, "Could not write the download: x"),
        (DownloadFault::Stream, "The download stopped early: x"),
        (DownloadFault::Flush, "Could not finish writing the download: x"),
    ];
    for (fault, words) in cases {
        assert_eq!(fault_message(fault, "x"), words);
    }
    assert_eq!(check_answer(200, true, "200 OK", None), Ok(()));
    assert_eq!(check_answer(404, false, "404 Not Found", Some("gone")).unwrap_err(), "gone");
    assert_eq!(
        check_answer(500, false, "500 Internal Server Error", Some("gone")).unwrap_err(),
        "The download answered with HTTP 500 Internal Server Error."
    );
    let version = Version::parse("1.1.4").unwrap();
    assert_eq!(
        user_agent(&version),
        "FlipperClipper/1.1.4 (+https://github.com/mkiera/FlipperClipper)"
    );
}

#[test]
fn the_tools_are_found_under_the_versioned_folder_the_zip_invents() {
    let build = "ffmpeg-9.0.1-essentials_build\\bin";
    assert_eq!(wanted_tools(), ["ffmpeg", "ffprobe"]);
    let names = ["ffmpeg.exe", "ffprobe.exe", "ffplay.exe"];
    let found: Vec<Option<String>> = wanted_tools()
        .iter()
        .map(|wanted| {
            names
                .iter()
                .find(|name| is_wanted(name, &format!("{wanted}.EXE")))
                .map(|name| format!("{build}\\{name}"))
        })
        .collect();
    let staged = staged_tools(found).expect("both tools found");
    assert_eq!(staged.len(), 2);
    assert!(staged[0].ends_with("ffmpeg.exe"));
    assert!(staged[1].ends_with("ffprobe.exe"));
}

#[test]
fn a_zip_without_ffmpeg_is_reported_rather_than_half_installed() {
    let found = vec![
        None,
        Some("ffmpeg-9.0.1-essentials_build\\bin\\ffprobe.exe".to_string()),
    ];
    assert_eq!(staged_tools(found).unwrap_err(), ZIP_INCOMPLETE);
}

#[test]
fn a_binary_that_will_not_run_is_rejected() {
    assert_eq!(verify_staged(&vec![false]).unwrap_err(), BINARY_WONT_RUN);
    assert_eq!(verify_staged(&vec![true, false]).unwrap_err(), BINARY_WONT_RUN);
    assert_eq!(verify_staged(&vec![true, true]), Ok(()));
}

#[test]
fn a_binary_still_held_open_is_waited_out_rather_than_failed() {
    assert_eq!(after_rename(0, false), RenameStep::WaitAndRetry);
    assert_eq!(after_rename(8, true), RenameStep::Done);
    assert_eq!(after_rename(RENAME_ATTEMPTS, false), RenameStep::GiveUp);
}

#[test]
fn one_install_runs_at_a_time() {
    let mut slot = InstallSlot::new();
    assert_eq!(slot.begin(), Ok(()));
    assert_eq!(slot.begin().unwrap_err(), ALREADY_RUNNING);
    slot.end();
    assert_eq!(slot.begin(), Ok(()));
    assert!(is_aside(".old-ffmpeg.exe-3"));
    assert!(!is_aside("ffmpeg.exe"));
    assert!(swap_failed("os error 5").contains("os error 5"));
}

#[test]
fn the_debug_panel_says_what_it_found() {
    let report = tool(Some(("C:\\f.exe".to_string(), "ffmpeg version 7.1\nbuilt".to_string())));
    assert!(report.found);
    assert_eq!(report.version.as_deref(), Some("ffmpeg version 7.1"));
    assert!(!tool(None).found);
    assert_eq!(source_args("clip.mp4").last().unwrap(), "clip.mp4");

    let wrote = diagnose(&TestExport::Wrote {
        size: 4096,
        output: "o".to_string(),
        encoder: "libx264".to_string(),
    });
    assert_eq!(wrote.1, "Exported 4 KB with libx264.");
    let empty = diagnose(&TestExport::Wrote {
        size: 0,
        output: "o".to_string(),
        encoder: "libx264".to_string(),
    });
    assert_eq!((empty.0, empty.2.as_str()), (false, "o is empty."));
    assert_eq!(
        diagnose(&TestExport::NoFolder { dir: "d".to_string() }).2,
        "Tried to create d"
    );
    assert_eq!(
        diagnose(&TestExport::NoSource { detail: "why".to_string() }).2,
        "why"
    );
    assert_eq!(
        diagnose(&TestExport::Failed { stderr: " bad \n".to_string() }).2,
        "bad"
    );
    assert_eq!(
        diagnose(&TestExport::NotStarted { error: "e".to_string() }).1,
        "FFmpeg could not be started."
    );
    let late = diagnostic_result(None, 60_000);
    assert_eq!(late.message, "The test export did not finish.");
    let done = diagnostic_result(Some(wrote), 12);
    assert!(done.success && done.millis == 12);
}
