use flipperclipper::estimate;
use flipperclipper::job::{Effects, ExportFormat, ExportJob, Orientation, QualityPreset, Rect};
use flipperclipper::ramp::segments;

/// A quantity as the library carries it.
fn q(v: f64) -> i64 {
    (v * 1e9).round() as i64
}

/// The logarithms that belong to the pieces of a job's curve.
fn logs_for(job: &ExportJob) -> Vec<i64> {
    segments(&job.ramp, job.speed, job.in_point, job.out_point)
        .iter()
        .map(|s| ((s.speed_to as f64 / s.speed_from as f64).ln() * 1e15).round() as i64)
        .collect()
}

fn job(quality: QualityPreset) -> ExportJob {
    ExportJob {
        input: "C:\\clips\\my video.mp4".to_string(),
        output: "C:\\clips\\my video_clip.mp4".to_string(),
        in_point: q(1.5),
        out_point: q(11.5),
        speed: q(1.0),
        ramp: Vec::new(),
        orientation: Orientation::default(),
        crop: None,
        mute: false,
        reverse: false,
        normalize: false,
        volume: q(1.0),
        format: ExportFormat::Mp4,
        quality,
        target_mb: None,
        lossless: false,
        output_height: None,
        video_kbps: None,
        effects: Effects::default(),
    }
}

/// A size-target job: the preset carries no number of its own, so the two always travel together.
fn fit_job(target_mb: f64) -> ExportJob {
    let mut j = job(QualityPreset::Fit);
    j.target_mb = Some(q(target_mb));
    j
}

fn estimate_output_bytes(
    job: &ExportJob,
    width: i64,
    height: i64,
    fps: f64,
    has_audio: bool,
) -> u64 {
    let logs = logs_for(job);
    estimate::estimate_output_bytes(job, width, height, q(fps), has_audio, &logs)
}

#[test]
fn the_estimate_of_an_explicit_bitrate_is_arithmetic() {
    let mut j = job(QualityPreset::Balanced);
    j.video_kbps = Some(2000);
    j.mute = true;
    // 2000 kbps across the 10 s trim.
    assert_eq!(
        estimate_output_bytes(&j, 1920, 1080, 30.0, true),
        2_500_000
    );

    // Unmuted adds the preset's 128k aac.
    j.mute = false;
    assert_eq!(
        estimate_output_bytes(&j, 1920, 1080, 30.0, true),
        2_660_000
    );
    // A source with no audio track pays nothing for one.
    assert_eq!(
        estimate_output_bytes(&j, 1920, 1080, 30.0, false),
        2_500_000
    );
}

#[test]
fn the_estimate_of_a_size_target_is_the_budget_it_aimed_at() {
    let mut j = fit_job(10.0);
    j.in_point = q(0.0);
    j.out_point = q(20.0);
    j.mute = true;
    // The 0.93 overhead margin is deliberate undershoot, so the estimate
    // has to report 9.3 MB rather than the 10 MB the user typed.
    assert_eq!(estimate_output_bytes(&j, 1920, 1080, 30.0, true), 9_300_000);

    // With audio the two streams still add back up to the same budget.
    j.mute = false;
    assert_eq!(estimate_output_bytes(&j, 1920, 1080, 30.0, true), 9_300_000);
}

#[test]
fn the_constant_quality_estimate_uses_bits_per_pixel() {
    let j = job(QualityPreset::Balanced);
    // 0.065 * 1920 * 1080 * 30 fps * 10 s, plus 128k of aac, in bytes.
    assert_eq!(estimate_output_bytes(&j, 1920, 1080, 30.0, true), 5_214_400);

    let mut j = job(QualityPreset::Small);
    j.mute = true;
    assert_eq!(estimate_output_bytes(&j, 1920, 1080, 30.0, true), 2_721_600);
}

#[test]
fn the_estimate_counts_frames_rather_than_seconds_through_a_speed_change() {
    let mut j = job(QualityPreset::Balanced);
    j.speed = q(2.0);
    // Half the output length at twice the frame rate: the same frames, so
    // only the audio allowance halves.
    assert_eq!(estimate_output_bytes(&j, 1920, 1080, 30.0, true), 5_134_400);
}

#[test]
fn the_estimate_measures_the_frame_after_crop_and_scale() {
    let mut j = job(QualityPreset::Balanced);
    j.output_height = Some(720);
    // 0.065 * 1280 * 720 * 30 * 10, plus the audio.
    assert_eq!(estimate_output_bytes(&j, 1920, 1080, 30.0, true), 2_406_400);

    // A request the never-upscale rule drops must not shrink the estimate.
    j.output_height = Some(2160);
    assert_eq!(estimate_output_bytes(&j, 1920, 1080, 30.0, true), 5_214_400);

    // Cropping counts even without a scale.
    j.output_height = None;
    j.crop = Some(Rect {
        x: 0,
        y: 0,
        w: 1280,
        h: 720,
    });
    assert_eq!(estimate_output_bytes(&j, 1920, 1080, 30.0, true), 2_406_400);
}

#[test]
fn the_estimate_of_an_audio_export_is_its_bitrate() {
    let mut j = job(QualityPreset::Balanced);
    j.format = ExportFormat::Mp3;
    j.output = "C:\\clips\\out.mp3".to_string();
    assert_eq!(estimate_output_bytes(&j, 1920, 1080, 30.0, true), 240_000);
    // No audio track means no file worth predicting.
    assert_eq!(estimate_output_bytes(&j, 1920, 1080, 30.0, false), 0);

    let mut j = fit_job(2.0);
    j.format = ExportFormat::Mp3;
    j.in_point = q(0.0);
    j.out_point = q(60.0);
    // The 248k the fit arithmetic asks lame for, over 60 s.
    assert_eq!(estimate_output_bytes(&j, 1920, 1080, 30.0, true), 1_860_000);
}

#[test]
fn the_estimate_of_a_gif_counts_quantised_frames() {
    let mut j = job(QualityPreset::Balanced);
    j.format = ExportFormat::Gif;
    j.output = "C:\\clips\\out.gif".to_string();
    // 480x270 at the balanced 15 fps cap for 10 s.
    assert_eq!(estimate_output_bytes(&j, 1920, 1080, 30.0, true), 6_804_000);
}

#[test]
fn an_empty_or_unmeasurable_job_estimates_nothing() {
    let mut j = job(QualityPreset::Balanced);
    j.out_point = j.in_point;
    assert_eq!(estimate_output_bytes(&j, 1920, 1080, 30.0, true), 0);

    let j = job(QualityPreset::Balanced);
    assert_eq!(estimate_output_bytes(&j, 0, 0, 30.0, true), 0);
}

#[test]
fn a_lossless_trim_is_estimated_from_the_source_frame() {
    let mut j = job(QualityPreset::Balanced);
    j.lossless = true;
    // A stream copy ignores crop, so the crop must not shrink the answer.
    j.crop = Some(Rect {
        x: 0,
        y: 0,
        w: 640,
        h: 360,
    });
    // 0.10 * 1920 * 1080 * 30 * 10, plus 128k of audio, in bytes.
    assert_eq!(estimate_output_bytes(&j, 1920, 1080, 30.0, true), 7_936_000);
}

#[test]
fn an_estimate_of_a_size_target_stays_under_it() {
    for mb in [1.0, 10.0, 250.0] {
        for format in [ExportFormat::Mp4, ExportFormat::Webm, ExportFormat::Mp3, ExportFormat::Opus] {
            let mut j = fit_job(mb);
            j.format = format;
            let bytes = estimate_output_bytes(&j, 1920, 1080, 30.0, true);
            assert!(bytes <= (mb * 1e6) as u64, "{format:?} {mb}: {bytes}");
            assert!(bytes >= (mb * 0.9e6) as u64, "{format:?} {mb}: {bytes}");
        }
    }
}
