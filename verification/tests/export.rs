use flipperclipper::export;
use flipperclipper::export::{JobFacts, OutputFolder};
use flipperclipper::job::{Effects, ExportFormat, ExportJob, Orientation, QualityPreset};

/// A quantity as the library carries it.
fn q(v: f64) -> i64 {
    (v * 1e9).round() as i64
}

fn job() -> ExportJob {
    ExportJob {
        input: "C:\\clips\\a.mp4".to_string(),
        output: "C:\\clips\\b.mp4".to_string(),
        in_point: q(0.0),
        out_point: q(10.0),
        speed: q(1.0),
        ramp: Vec::new(),
        orientation: Orientation::default(),
        crop: None,
        mute: false,
        reverse: false,
        normalize: false,
        volume: q(1.0),
        format: ExportFormat::Mp4,
        quality: QualityPreset::Balanced,
        target_mb: None,
        lossless: false,
        output_height: None,
        video_kbps: None,
        effects: Effects::default(),
    }
}

/// What is known of a job whose numbers are all finite and whose input is not on this disk.
fn facts() -> JobFacts {
    JobFacts {
        trim_finite: true,
        speed_finite: true,
        volume_finite: true,
        target_finite: true,
        input_is_file: false,
        folder: OutputFolder::Missing("C:\\clips".to_string()),
    }
}

fn validate(job: &ExportJob) -> Result<(), String> {
    export::validate(job, &facts())
}

#[test]
fn only_the_offered_output_sizes_are_accepted() {
    for height in [2160, 1440, 1080, 720, 480, 360] {
        let mut j = job();
        j.output_height = Some(height);
        assert_ne!(
            validate(&j).unwrap_err(),
            "The output size has to be 2160, 1440, 1080, 720, 480 or 360."
        );
    }
    for height in [1081, 0, -720, 4320] {
        let mut j = job();
        j.output_height = Some(height);
        assert_eq!(
            validate(&j).unwrap_err(),
            "The output size has to be 2160, 1440, 1080, 720, 480 or 360."
        );
    }
}

#[test]
fn the_explicit_bitrate_is_bounded() {
    for kbps in [49, 0, -1, 200_001] {
        let mut j = job();
        j.video_kbps = Some(kbps);
        assert_eq!(
            validate(&j).unwrap_err(),
            "The video bitrate has to be between 50 and 200000 kbps."
        );
    }
    for kbps in [50, 8_000, 200_000] {
        let mut j = job();
        j.video_kbps = Some(kbps);
        assert_ne!(
            validate(&j).unwrap_err(),
            "The video bitrate has to be between 50 and 200000 kbps."
        );
    }
}

#[test]
fn a_size_target_and_an_explicit_bitrate_cannot_both_be_asked_for() {
    let mut j = job();
    j.quality = QualityPreset::Fit;
    j.target_mb = Some(q(10.0));
    j.video_kbps = Some(4000);
    assert_eq!(
        validate(&j).unwrap_err(),
        "A size target works out its own bitrate, so it cannot be given one as well."
    );

    j.video_kbps = None;
    assert_ne!(
        validate(&j).unwrap_err(),
        "A size target works out its own bitrate, so it cannot be given one as well."
    );
}
