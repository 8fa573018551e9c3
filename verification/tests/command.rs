use flipperclipper::command;
use flipperclipper::filters::{ffmpeg_color, OVERLAY_TEXT_FILE, VIGNETTE_MAX_ANGLE};
use flipperclipper::job;
use flipperclipper::job::{
    Effects, ExportFormat, ExportJob, Orientation, QualityPreset, Rect, TextAnchorX, TextAnchorY,
    TextOverlay,
};
use flipperclipper::number::fmt_ratio;
use flipperclipper::ramp::{segments, SpeedPoint};
use flipperclipper::tempo;

/// A quantity as the library carries it.
fn q(v: f64) -> i64 {
    (v * 1e9).round() as i64
}

/// The logarithms that belong to the pieces of a job's curve.
fn logs_for(job: &ExportJob) -> Vec<i64> {
    segments(&job.ramp, job.speed, job.in_point, job.out_point)
        .iter()
        .map(|s| ((s.speed_to as f64 / s.speed_from as f64).ln() * 1e15).round() as i64)
        .collect()
}

fn job(quality: QualityPreset) -> ExportJob {
    ExportJob {
        input: "C:\\clips\\my video.mp4".to_string(),
        output: "C:\\clips\\my video_clip.mp4".to_string(),
        in_point: q(1.5),
        out_point: q(11.5),
        speed: q(1.0),
        ramp: Vec::new(),
        orientation: Orientation::default(),
        crop: None,
        mute: false,
        reverse: false,
        normalize: false,
        volume: q(1.0),
        format: ExportFormat::Mp4,
        quality,
        target_mb: None,
        lossless: false,
        output_height: None,
        video_kbps: None,
        effects: Effects::default(),
    }
}

/// A size-target job: the preset carries no number of its own, so the two always travel together.
fn fit_job(target_mb: f64) -> ExportJob {
    let mut j = job(QualityPreset::Fit);
    j.target_mb = Some(q(target_mb));
    j
}

fn build_args(
    job: &ExportJob,
    encoder: &str,
    has_audio: bool,
    width: i64,
    height: i64,
    fps: f64,
    font: Option<&String>,
) -> Vec<String> {
    let logs = logs_for(job);
    command::build_args(
        job,
        encoder,
        has_audio,
        width,
        height,
        q(fps),
        font.map(|f| f.as_str()),
        &logs,
    )
}

fn index_of(args: &[String], needle: &str) -> Option<usize> {
    args.iter().position(|a| a == needle)
}

fn value_after<'a>(args: &'a [String], flag: &str) -> Option<&'a str> {
    index_of(args, flag)
        .and_then(|i| args.get(i + 1))
        .map(|s| s.as_str())
}

fn has(args: &[String], flag: &str) -> bool {
    index_of(args, flag).is_some()
}

/// Whether `flag` and `value` appear as two consecutive arguments.
fn has_pair(args: &[String], flag: &str, value: &str) -> bool {
    args.windows(2).any(|w| w[0] == flag && w[1] == value)
}

fn font() -> String {
    "C:\\Windows\\Fonts\\arial.ttf".to_string()
}

fn overlay(text: &str) -> TextOverlay {
    TextOverlay {
        text: text.to_string(),
        size: q(0.07),
        color: "#ffcc00".to_string(),
        opacity: q(0.9),
        anchor_x: TextAnchorX::Center,
        anchor_y: TextAnchorY::Bottom,
        boxed: false,
    }
}

/// The picture's chain as one text, which is where every ordering assertion below looks.
fn vf(args: &[String]) -> String {
    value_after(args, "-vf")
        .or_else(|| value_after(args, "-filter_complex"))
        .unwrap_or("")
        .to_string()
}

fn output_duration(j: &ExportJob) -> f64 {
    job::output_duration(j, &logs_for(j)) as f64 / 1e9
}

fn atempo_chain(speed: f64) -> Vec<String> {
    tempo::atempo_chain(q(speed))
}

#[test]
fn no_effects_switched_on_emit_no_filters_at_all() {
    // The whole point of Option-per-dial: an untouched effects tab costs nothing.
    let args = build_args(&job(QualityPreset::Balanced), "libx264", true, 1920, 1080, 30.0, None);
    assert!(!has(&args, "-vf"), "{args:?}");
}

#[test]
fn brightness_multiplies_rather_than_adding_so_the_preview_agrees() {
    // eq's own brightness is additive; CSS brightness() multiplies. The preview can only
    // do the second, so the export has to as well.
    let mut j = job(QualityPreset::Balanced);
    j.effects.brightness = Some(q(1.25));
    let args = build_args(&j, "libx264", true, 1920, 1080, 30.0, None);
    assert_eq!(vf(&args), "colorchannelmixer=rr=1.25:gg=1.25:bb=1.25");
}

#[test]
fn contrast_and_saturation_share_one_eq() {
    let mut j = job(QualityPreset::Balanced);
    j.effects.contrast = Some(q(1.3));
    j.effects.saturation = Some(q(0.7));
    let args = build_args(&j, "libx264", true, 1920, 1080, 30.0, None);
    assert_eq!(vf(&args), "eq=contrast=1.3:saturation=0.7");
}

#[test]
fn each_colour_dial_can_stand_alone_in_the_eq() {
    let mut j = job(QualityPreset::Balanced);
    j.effects.saturation = Some(q(0.0));
    let args = build_args(&j, "libx264", true, 1920, 1080, 30.0, None);
    assert_eq!(vf(&args), "eq=saturation=0.0");
}

#[test]
fn the_vignette_slider_maps_onto_the_lens_angle() {
    let mut j = job(QualityPreset::Balanced);
    j.effects.vignette = Some(q(1.0));
    let args = build_args(&j, "libx264", true, 1920, 1080, 30.0, None);
    // Full strength stops short of PI/2, which vignette clips at and which is a black
    // frame with a dot in the middle rather than a picture.
    assert_eq!(vf(&args), format!(
            "vignette=angle={}",
            fmt_ratio(VIGNETTE_MAX_ANGLE, 1_000_000_000_000)
        ));
}

#[test]
fn blur_goes_in_before_the_scale_and_text_after_it() {
    // A sigma is in source pixels. Blurring first keeps it proportional at any export
    // size; drawing the text last keeps the letters crisp at the size they end up.
    let mut j = job(QualityPreset::Balanced);
    j.effects.blur = Some(q(6.0));
    j.effects.text = Some(overlay("hello"));
    j.output_height = Some(720);
    let args = build_args(&j, "libx264", true, 1920, 1080, 30.0, Some(&font()));
    let chain = vf(&args);

    let blur = chain.find("gblur").expect("no blur in the chain");
    let scale = chain.find("scale=").expect("no scale in the chain");
    let text = chain.find("drawtext").expect("no text in the chain");
    assert!(blur < scale && scale < text, "{chain}");
}

#[test]
fn the_overlay_text_never_enters_the_filtergraph() {
    // A colon separates filter options, a quote opens a quoted section and a percent sign
    // starts an expansion. All three are ordinary things to type into a caption, so the
    // words travel in a file and expansion is switched off rather than escaped.
    let mut j = job(QualityPreset::Balanced);
    j.effects.text = Some(overlay("50%: it's \\fine\\"));
    let args = build_args(&j, "libx264", true, 1920, 1080, 30.0, Some(&font()));
    let chain = vf(&args);

    assert!(!chain.contains("it's"), "{chain}");
    assert!(!chain.contains("50%"), "{chain}");
    assert!(chain.contains(&format!("textfile={OVERLAY_TEXT_FILE}")), "{chain}");
    assert!(chain.contains("expansion=none"), "{chain}");
}

#[test]
fn the_text_file_is_named_relative_to_ffmpegs_working_directory() {
    // Not a style choice: a filtergraph path must be quoted, and a quoted one cannot carry
    // an apostrophe - which the temp path under a user called O'Brien would. The app
    // sets the child's cwd to match, and the two only work together.
    let mut j = job(QualityPreset::Balanced);
    j.effects.text = Some(overlay("hi"));
    let args = build_args(&j, "libx264", true, 1920, 1080, 30.0, Some(&font()));
    let chain = vf(&args);
    assert!(chain.contains(&format!("textfile={OVERLAY_TEXT_FILE}:")), "{chain}");
    assert!(!chain.contains("textfile='"), "{chain}");
}

#[test]
fn the_font_path_is_quoted_with_its_drive_colon_escaped() {
    let mut j = job(QualityPreset::Balanced);
    j.effects.text = Some(overlay("hi"));
    let args = build_args(&j, "libx264", true, 1920, 1080, 30.0, Some(&font()));
    assert!(
        vf(&args).contains("fontfile='C\\:/Windows/Fonts/arial.ttf'"),
        "{}",
        vf(&args)
    );
}

#[test]
fn the_colour_input_hex_becomes_an_ffmpeg_colour() {
    assert_eq!(ffmpeg_color("#FFcc00"), "0xffcc00");
    assert_eq!(ffmpeg_color("112233"), "0x112233");
    // Anything unreadable falls back rather than emitting a filter ffmpeg will reject.
    assert_eq!(ffmpeg_color("rebeccapurple"), "0xffffff");
    assert_eq!(ffmpeg_color("#12345"), "0xffffff");
}

#[test]
fn every_text_anchor_maps_onto_a_pair_of_drawtext_expressions() {
    let cases = [
        (TextAnchorX::Left, TextAnchorY::Top, "x=h*0.04", "y=h*0.04"),
        (
            TextAnchorX::Center,
            TextAnchorY::Middle,
            "x=(w-text_w)/2",
            "y=(h-text_h)/2",
        ),
        (
            TextAnchorX::Right,
            TextAnchorY::Bottom,
            "x=w-text_w-h*0.04",
            "y=h-text_h-h*0.04",
        ),
    ];
    for (anchor_x, anchor_y, x, y) in cases {
        let mut j = job(QualityPreset::Balanced);
        let mut o = overlay("hi");
        o.anchor_x = anchor_x;
        o.anchor_y = anchor_y;
        j.effects.text = Some(o);
        let chain = vf(&build_args(&j, "libx264", true, 1920, 1080, 30.0, Some(&font())));
        assert!(chain.contains(&format!(":{x}:")), "{chain}");
        assert!(chain.contains(&format!(":{y}")), "{chain}");
    }
}

#[test]
fn the_text_is_dropped_rather_than_half_emitted_when_no_font_was_found() {
    // build_args is handed None when the machine has no usable font. Emitting drawtext
    // without a fontfile would fail the whole export over one optional overlay.
    let mut j = job(QualityPreset::Balanced);
    j.effects.text = Some(overlay("hi"));
    j.effects.blur = Some(q(4.0));
    let chain = vf(&build_args(&j, "libx264", true, 1920, 1080, 30.0, None));
    assert!(!chain.contains("drawtext"), "{chain}");
    assert!(chain.contains("gblur"), "{chain}");
}

#[test]
fn fades_are_measured_on_the_output_timeline_not_the_source_one() {
    // A 10 s trim at 2x is a 5 s clip, so a fade out one second long starts at 4.
    let mut j = job(QualityPreset::Balanced);
    j.speed = q(2.0);
    j.effects.fade_out = Some(q(1.0));
    let chain = vf(&build_args(&j, "libx264", true, 1920, 1080, 30.0, None));
    assert!(chain.contains("fade=t=out:st=4.000:d=1.000"), "{chain}");
}

#[test]
fn a_fade_longer_than_the_clip_is_trimmed_to_the_clip() {
    let mut j = job(QualityPreset::Balanced);
    j.out_point = j.in_point + q(2.0);
    j.effects.fade_in = Some(q(30.0));
    j.effects.fade_out = Some(q(30.0));
    let chain = vf(&build_args(&j, "libx264", true, 1920, 1080, 30.0, None));
    assert!(chain.contains("fade=t=in:st=0:d=2.000"), "{chain}");
    assert!(chain.contains("fade=t=out:st=0.000:d=2.000"), "{chain}");
}

#[test]
fn fades_sit_after_reverse_in_both_chains() {
    // reverse is the last filter that changes which end is the start, so a fade in put
    // ahead of it would be seen as a fade out.
    let mut j = job(QualityPreset::Balanced);
    j.reverse = true;
    j.effects.fade_in = Some(q(0.5));
    let args = build_args(&j, "libx264", true, 1920, 1080, 30.0, None);

    let chain = vf(&args);
    assert!(
        chain.find("reverse").unwrap() < chain.find("fade=t=in").unwrap(),
        "{chain}"
    );

    let audio = value_after(&args, "-af").unwrap_or("");
    assert!(
        audio.find("areverse").unwrap() < audio.find("afade=t=in").unwrap(),
        "{audio}"
    );
}

#[test]
fn the_audio_fades_with_the_picture() {
    let mut j = job(QualityPreset::Balanced);
    j.effects.fade_in = Some(q(0.5));
    j.effects.fade_out = Some(q(1.5));
    let args = build_args(&j, "libx264", true, 1920, 1080, 30.0, None);
    assert_eq!(
        value_after(&args, "-af"),
        Some("afade=t=in:st=0:d=0.500,afade=t=out:st=8.500:d=1.500")
    );
}

#[test]
fn an_audio_only_export_fades_but_takes_no_picture_effects() {
    let mut j = job(QualityPreset::Balanced);
    j.format = ExportFormat::Mp3;
    j.output = "C:\\clips\\out.mp3".to_string();
    j.effects.fade_in = Some(q(0.5));
    j.effects.blur = Some(q(9.0));
    j.effects.text = Some(overlay("hi"));
    let args = build_args(&j, "libx264", true, 1920, 1080, 30.0, Some(&font()));

    assert!(value_after(&args, "-af").unwrap().contains("afade=t=in"), "{args:?}");
    assert!(!has(&args, "-vf"), "{args:?}");
    assert!(!args.iter().any(|a| a.contains("gblur") || a.contains("drawtext")), "{args:?}");
}

#[test]
fn a_silent_source_gets_no_afade_either() {
    let mut j = job(QualityPreset::Balanced);
    j.effects.fade_in = Some(q(0.5));
    let args = build_args(&j, "libx264", false, 1920, 1080, 30.0, None);
    assert!(!has(&args, "-af"), "{args:?}");
    assert!(vf(&args).contains("fade=t=in"), "{args:?}");
}

#[test]
fn the_gif_chain_carries_the_effects_into_its_filter_complex() {
    let mut j = job(QualityPreset::Balanced);
    j.format = ExportFormat::Gif;
    j.output = "C:\\clips\\out.gif".to_string();
    j.effects.blur = Some(q(3.0));
    j.effects.text = Some(overlay("hi"));
    j.effects.fade_in = Some(q(0.5));
    let chain = value_after(&build_args(&j, "libx264", true, 1920, 1080, 30.0, Some(&font())), "-filter_complex")
        .unwrap()
        .to_string();

    // Everything still has to land ahead of the palette pass, which is the only branch.
    let palette = chain.find("palettegen").expect("no palette pass");
    for needle in ["gblur", "drawtext", "fade=t=in"] {
        let at = chain.find(needle).unwrap_or_else(|| panic!("no {needle} in {chain}"));
        assert!(at < palette, "{needle} landed after the palette: {chain}");
    }
}

#[test]
fn a_lossless_job_emits_no_effect_filters() {
    // The checks refuse this combination; build_args is reached anyway by the tests, and
    // the stream-copy branch returns before any filter is considered.
    let mut j = job(QualityPreset::Balanced);
    j.lossless = true;
    j.effects.blur = Some(q(4.0));
    let args = build_args(&j, "libx264", true, 1920, 1080, 30.0, None);
    assert!(!has(&args, "-vf"), "{args:?}");
    assert!(has_pair(&args, "-c", "copy"), "{args:?}");
}

#[test]
fn lossless_trim_is_a_stream_copy_with_no_filters() {
    let mut j = job(QualityPreset::Balanced);
    j.lossless = true;
    let args = build_args(&j, "libx264", true, 1920, 1080, 30.0, None);

    assert_eq!(
        args,
        vec![
            "-y",
            "-progress",
            "pipe:1",
            "-nostats",
            "-ss",
            "1.500",
            "-t",
            "10.000",
            "-i",
            "C:\\clips\\my video.mp4",
            "-map",
            "0:v:0",
            "-map",
            "0:a:0?",
            "-c",
            "copy",
            "-avoid_negative_ts",
            "make_zero",
            "-movflags",
            "+faststart",
            "C:\\clips\\my video_clip.mp4",
        ]
        .iter()
        .map(|s| s.to_string())
        .collect::<Vec<String>>()
    );
}

#[test]
fn lossless_on_a_silent_file_omits_the_audio_map() {
    let mut j = job(QualityPreset::Balanced);
    j.lossless = true;
    let args = build_args(&j, "libx264", false, 1920, 1080, 30.0, None);
    assert!(!has_pair(&args, "-map", "0:a:0?"));
    assert!(has_pair(&args, "-map", "0:v:0"));
    assert!(has_pair(&args, "-c", "copy"));
}

#[test]
fn lossless_into_mkv_is_a_stream_copy_without_movflags() {
    // The mkv escape hatch of losslessEligible: any codec fits in
    // Matroska, but the Matroska muxer does not own -movflags.
    let mut j = job(QualityPreset::Balanced);
    j.lossless = true;
    j.format = ExportFormat::Mkv;
    j.output = "C:\\clips\\my video_clip.mkv".to_string();
    let args = build_args(&j, "libx264", true, 1920, 1080, 30.0, None);
    assert!(has_pair(&args, "-c", "copy"));
    assert!(!has(&args, "-movflags"));
    assert_eq!(args.last().unwrap(), "C:\\clips\\my video_clip.mkv");
}

#[test]
fn trim_uses_input_side_duration_not_output_side_to() {
    let mut j = job(QualityPreset::Balanced);
    j.in_point = q(4.0);
    j.out_point = q(9.0);
    j.speed = q(2.0);
    let args = build_args(&j, "libx264", true, 1920, 1080, 30.0, None);

    // -t is the source window (5s), unaffected by the 2x speed, and both
    // seek flags sit in front of -i.
    assert_eq!(value_after(&args, "-ss"), Some("4.000"));
    assert_eq!(value_after(&args, "-t"), Some("5.000"));
    assert!(!has(&args, "-to"));
    assert!(index_of(&args, "-ss").unwrap() < index_of(&args, "-i").unwrap());
    assert!(index_of(&args, "-t").unwrap() < index_of(&args, "-i").unwrap());
}

#[test]
fn output_duration_divides_the_trim_by_speed() {
    let mut j = job(QualityPreset::Balanced);
    j.in_point = q(2.0);
    j.out_point = q(12.0);
    j.speed = q(2.0);
    assert!((output_duration(&j) - 5.0).abs() < 1e-9);
    j.speed = q(0.25);
    assert!((output_duration(&j) - 40.0).abs() < 1e-9);
    j.speed = q(0.0);
    assert_eq!(output_duration(&j), 0.0);
    j.speed = q(1.0);
    j.out_point = q(1.0);
    assert_eq!(output_duration(&j), 0.0);
}

#[test]
fn a_curve_settles_the_frame_rate_where_a_single_speed_does_not_need_to() {
    // One speed leaves the clip evenly spaced, just at another rate, and the muxer writes
    // that as it stands. A curve leaves frames bunched where it ran fast, and ffmpeg's own
    // conversion to a constant rate overshoots the length the audio is padded to.
    let mut j = job(QualityPreset::High);
    j.speed = q(2.0);
    let graph = build_args(&j, "libx264", true, 1920, 1080, 30.0, None).join(" ");
    assert!(graph.contains("setpts=PTS/2.0"), "{graph}");
    assert!(!graph.contains("fps=30"), "{graph}");

    j.speed = q(1.0);
    j.ramp = vec![
        SpeedPoint { t: q(0.0), speed: q(1.0) },
        SpeedPoint { t: q(2.0), speed: q(4.0) },
    ];
    let graph = build_args(&j, "libx264", true, 1920, 1080, 30.0, None).join(" ");
    assert!(graph.contains("setpts='("), "{graph}");
    assert!(graph.contains("fps=30"), "{graph}");
    // The expression itself, not a division: a curve has no single speed to divide by.
    assert!(!graph.contains("setpts=PTS/"), "{graph}");
}

#[test]
fn atempo_chains_outside_its_supported_range() {
    assert_eq!(atempo_chain(1.0), Vec::<String>::new());
    assert_eq!(atempo_chain(0.5), vec!["atempo=0.5"]);
    assert_eq!(atempo_chain(2.0), vec!["atempo=2.0"]);
    assert_eq!(atempo_chain(0.25), vec!["atempo=0.5", "atempo=0.5"]);
    assert_eq!(atempo_chain(4.0), vec!["atempo=2.0", "atempo=2.0"]);
    assert_eq!(atempo_chain(1.5), vec!["atempo=1.5"]);
    assert_eq!(atempo_chain(0.75), vec!["atempo=0.75"]);
    assert_eq!(atempo_chain(3.0), vec!["atempo=2.0", "atempo=1.5"]);
    assert_eq!(atempo_chain(0.3), vec!["atempo=0.5", "atempo=0.6"]);
}

#[test]
fn atempo_chains_the_full_widened_range() {
    // 0.05 and 20 are the extremes the number input allows: four halving stages bring 0.05 up to
    // 0.8, four doubling stages bring 20 down to 1.25, every one inside atempo's 0.5..2.0 window.
    assert_eq!(
        atempo_chain(0.05),
        vec![
            "atempo=0.5",
            "atempo=0.5",
            "atempo=0.5",
            "atempo=0.5",
            "atempo=0.8"
        ]
    );
    assert_eq!(
        atempo_chain(20.0),
        vec![
            "atempo=2.0",
            "atempo=2.0",
            "atempo=2.0",
            "atempo=2.0",
            "atempo=1.25"
        ]
    );
}

#[test]
fn atempo_stages_multiply_back_to_the_requested_speed() {
    for speed in [0.05f64, 0.1, 0.25, 0.3, 0.5, 0.75, 1.5, 2.0, 3.0, 4.0, 8.0, 20.0] {
        let product: f64 = atempo_chain(speed)
            .iter()
            .map(|part| part.trim_start_matches("atempo=").parse::<f64>().unwrap())
            .product();
        assert!(
            (product - speed).abs() < 1e-6,
            "chain for {} multiplied to {}",
            speed,
            product
        );
    }
}

#[test]
fn speed_sets_both_setpts_and_atempo() {
    let mut j = job(QualityPreset::Balanced);
    j.speed = q(0.25);
    let args = build_args(&j, "libx264", true, 1920, 1080, 30.0, None);
    assert_eq!(value_after(&args, "-vf"), Some("setpts=PTS/0.25"));
    assert_eq!(value_after(&args, "-af"), Some("atempo=0.5,atempo=0.5"));

    j.speed = q(4.0);
    let args = build_args(&j, "libx264", true, 1920, 1080, 30.0, None);
    assert_eq!(value_after(&args, "-vf"), Some("setpts=PTS/4.0"));
    assert_eq!(value_after(&args, "-af"), Some("atempo=2.0,atempo=2.0"));

    j.speed = q(2.0);
    let args = build_args(&j, "libx264", true, 1920, 1080, 30.0, None);
    assert_eq!(value_after(&args, "-af"), Some("atempo=2.0"));
}

#[test]
fn speed_of_one_emits_no_filters_at_all() {
    let args = build_args(
        &job(QualityPreset::Balanced),
        "libx264",
        true,
        1920,
        1080,
        30.0,
        None,
    );
    assert!(!has(&args, "-vf"));
    assert!(!has(&args, "-af"));
}

#[test]
fn muted_and_silent_sources_get_no_atempo() {
    let mut j = job(QualityPreset::Balanced);
    j.speed = q(2.0);
    j.mute = true;
    assert!(!has(
        &build_args(&j, "libx264", true, 1920, 1080, 30.0, None),
        "-af"
    ));

    j.mute = false;
    assert!(!has(
        &build_args(&j, "libx264", false, 1920, 1080, 30.0, None),
        "-af"
    ));
}

#[test]
fn volume_sits_after_atempo_and_unity_volume_is_omitted() {
    let mut j = job(QualityPreset::Balanced);
    j.speed = q(2.0);
    j.volume = q(1.5);
    let args = build_args(&j, "libx264", true, 1920, 1080, 30.0, None);
    assert_eq!(value_after(&args, "-af"), Some("atempo=2.0,volume=1.5"));

    // 1.0 is "unchanged": the filter must vanish, not read volume=1.0.
    j.volume = q(1.0);
    let args = build_args(&j, "libx264", true, 1920, 1080, 30.0, None);
    assert_eq!(value_after(&args, "-af"), Some("atempo=2.0"));

    // A very quiet source needs far more than the slider's 200%, and the filter takes it.
    j.volume = q(9.5);
    let args = build_args(&j, "libx264", true, 1920, 1080, 30.0, None);
    assert_eq!(value_after(&args, "-af"), Some("atempo=2.0,volume=9.5"));

    // Volume alone still produces an -af.
    j.speed = q(1.0);
    j.volume = q(0.5);
    let args = build_args(&j, "libx264", true, 1920, 1080, 30.0, None);
    assert_eq!(value_after(&args, "-af"), Some("volume=0.5"));
}

#[test]
fn normalising_replaces_the_manual_gain_and_sits_after_the_tempo_change() {
    let mut j = job(QualityPreset::Balanced);
    j.normalize = true;
    let args = build_args(&j, "libx264", true, 1920, 1080, 30.0, None);
    assert_eq!(
        value_after(&args, "-af"),
        Some("loudnorm=I=-16:TP=-1.5:LRA=11")
    );

    // atempo first, so loudnorm measures the audio at the speed it will be heard at.
    j.speed = q(2.0);
    let args = build_args(&j, "libx264", true, 1920, 1080, 30.0, None);
    assert_eq!(
        value_after(&args, "-af"),
        Some("atempo=2.0,loudnorm=I=-16:TP=-1.5:LRA=11")
    );

    // The pair the UI actually produces: normalise to a known level, then trim from it.
    j.speed = q(1.0);
    j.volume = q(0.5);
    let args = build_args(&j, "libx264", true, 1920, 1080, 30.0, None);
    assert_eq!(
        value_after(&args, "-af"),
        Some("loudnorm=I=-16:TP=-1.5:LRA=11,volume=0.5")
    );
}

#[test]
fn normalising_a_muted_export_emits_nothing() {
    let mut j = job(QualityPreset::Balanced);
    j.normalize = true;
    j.mute = true;
    let args = build_args(&j, "libx264", true, 1920, 1080, 30.0, None);
    assert!(!has(&args, "-af"), "{args:?}");
}

#[test]
fn volume_on_a_muted_export_emits_nothing() {
    let mut j = job(QualityPreset::Balanced);
    j.volume = q(2.0);
    j.mute = true;
    let args = build_args(&j, "libx264", true, 1920, 1080, 30.0, None);
    assert!(!has(&args, "-af"));
}

#[test]
fn reverse_is_appended_last_in_both_filter_chains() {
    let mut j = job(QualityPreset::Balanced);
    j.speed = q(2.0);
    j.volume = q(1.5);
    j.reverse = true;
    let args = build_args(&j, "libx264", true, 1920, 1080, 30.0, None);
    assert_eq!(value_after(&args, "-vf"), Some("setpts=PTS/2.0,reverse"));
    assert_eq!(
        value_after(&args, "-af"),
        Some("atempo=2.0,volume=1.5,areverse")
    );
}

#[test]
fn a_clip_that_plays_forwards_has_neither_reversal() {
    let mut j = job(QualityPreset::Balanced);
    j.speed = q(0.4);
    j.volume = q(1.5);
    j.normalize = true;
    j.effects = Effects {
        brightness: Some(q(1.2)),
        contrast: Some(q(1.1)),
        fade_in: Some(q(1.0)),
        fade_out: Some(q(1.0)),
        ..Effects::default()
    };
    for reversed in [false, true] {
        j.reverse = reversed;
        let args = build_args(&j, "libx264", true, 1920, 1080, 30.0, None);
        let picture: Vec<&str> = value_after(&args, "-vf").unwrap().split(',').collect();
        let sound: Vec<&str> = value_after(&args, "-af").unwrap().split(',').collect();
        assert_eq!(picture.contains(&"reverse"), reversed);
        assert_eq!(sound.contains(&"areverse"), reversed);
    }
}

#[test]
fn reverse_comes_after_the_fit_downscale() {
    // reverse buffers every frame it is handed, so it has to sit behind
    // the scale filter where the frames are already small.
    let mut j = fit_job(10.0);
    j.in_point = q(0.0);
    j.out_point = q(60.0);
    j.mute = true;
    j.reverse = true;
    let args = build_args(&j, "libx264", true, 1920, 1080, 30.0, None);
    assert_eq!(value_after(&args, "-vf"), Some("scale=1280:-2,reverse"));
}

#[test]
fn reverse_alone_still_reverses_both_streams() {
    let mut j = job(QualityPreset::Balanced);
    j.reverse = true;
    let args = build_args(&j, "libx264", true, 1920, 1080, 30.0, None);
    assert_eq!(value_after(&args, "-vf"), Some("reverse"));
    assert_eq!(value_after(&args, "-af"), Some("areverse"));
}

#[test]
fn crop_rounds_every_value_down_to_even() {
    let mut j = job(QualityPreset::Balanced);
    j.crop = Some(Rect {
        x: 101,
        y: 51,
        w: 641,
        h: 361,
    });
    let args = build_args(&j, "libx264", true, 1920, 1080, 30.0, None);
    assert_eq!(value_after(&args, "-vf"), Some("crop=640:360:100:50"));
}

#[test]
fn crop_is_clamped_inside_the_frame() {
    let mut j = job(QualityPreset::Balanced);
    // A drag that ran off the right and bottom edges. The width and height are deliberately
    // smaller than the frame, so an implementation carrying the unclamped w/h across
    // cannot pass by landing on the frame size anyway.
    j.crop = Some(Rect {
        x: 1800,
        y: 1000,
        w: 400,
        h: 400,
    });
    let args = build_args(&j, "libx264", true, 1920, 1080, 30.0, None);
    assert_eq!(value_after(&args, "-vf"), Some("crop=120:80:1800:1000"));
}

#[test]
fn a_negative_crop_origin_keeps_the_region_the_user_dragged() {
    let mut j = job(QualityPreset::Balanced);
    // The pointer left the window mid-drag. The visible selection is 0..370 across and 0..390
    // down, so taking the width from the rect instead of its right edge would emit 400x400 and
    // shift the whole region.
    j.crop = Some(Rect {
        x: -30,
        y: -10,
        w: 400,
        h: 400,
    });
    let args = build_args(&j, "libx264", true, 1920, 1080, 30.0, None);
    assert_eq!(value_after(&args, "-vf"), Some("crop=370:390:0:0"));

    // Overhanging both ends at once still yields the whole frame.
    j.crop = Some(Rect {
        x: -30,
        y: -10,
        w: 4000,
        h: 4000,
    });
    let args = build_args(&j, "libx264", true, 1920, 1080, 30.0, None);
    assert_eq!(value_after(&args, "-vf"), Some("crop=1920:1080:0:0"));
}

#[test]
fn a_degenerate_crop_is_dropped_rather_than_failing_the_export() {
    let mut j = job(QualityPreset::Balanced);
    j.crop = Some(Rect {
        x: 0,
        y: 0,
        w: 1,
        h: 1,
    });
    let args = build_args(&j, "libx264", true, 1920, 1080, 30.0, None);
    assert!(!has(&args, "-vf"));

    j.crop = Some(Rect {
        x: 1920,
        y: 1080,
        w: 100,
        h: 100,
    });
    let args = build_args(&j, "libx264", true, 1920, 1080, 30.0, None);
    assert!(!has(&args, "-vf"));
}

#[test]
fn crop_comes_before_setpts_and_scale_in_the_chain() {
    let mut j = job(QualityPreset::Balanced);
    j.crop = Some(Rect {
        x: 10,
        y: 20,
        w: 1280,
        h: 720,
    });
    j.speed = q(2.0);
    let args = build_args(&j, "libx264", true, 1920, 1080, 30.0, None);
    assert_eq!(
        value_after(&args, "-vf"),
        Some("crop=1280:720:10:20,setpts=PTS/2.0")
    );
}

#[test]
fn mute_drops_the_audio_map_and_adds_an() {
    let mut j = job(QualityPreset::Balanced);
    j.mute = true;
    let args = build_args(&j, "libx264", true, 1920, 1080, 30.0, None);
    assert!(has(&args, "-an"));
    assert!(has_pair(&args, "-map", "0:v:0"));
    assert!(!has_pair(&args, "-map", "0:a:0?"));
    assert!(!has(&args, "-c:a"));
    assert!(!has(&args, "-b:a"));
}

#[test]
fn a_silent_source_gets_no_audio_flags_but_no_an_either() {
    let args = build_args(
        &job(QualityPreset::Balanced),
        "libx264",
        false,
        1920,
        1080,
        30.0,
        None,
    );
    assert!(!has_pair(&args, "-map", "0:a:0?"));
    assert!(!has(&args, "-c:a"));
    // The explicit video-only map already excludes audio, so -an would be
    // noise; asserting it stays out keeps the vector honest.
    assert!(!has(&args, "-an"));
}

#[test]
fn libx264_uses_crf_and_the_veryfast_preset() {
    for (quality, crf, abr) in [
        (QualityPreset::High, "18", "160k"),
        (QualityPreset::Balanced, "23", "128k"),
        (QualityPreset::Small, "28", "96k"),
    ] {
        let args = build_args(&job(quality), "libx264", true, 1920, 1080, 30.0, None);
        assert!(has_pair(&args, "-c:v", "libx264"));
        assert!(has_pair(&args, "-preset", "veryfast"), "{:?}", quality);
        assert_eq!(value_after(&args, "-crf"), Some(crf), "{:?}", quality);
        assert_eq!(value_after(&args, "-b:a"), Some(abr), "{:?}", quality);
        assert!(has_pair(&args, "-c:a", "aac"));
        assert!(!has(&args, "-cq"));
        assert!(!has(&args, "-global_quality"));
    }
}

#[test]
fn nvenc_uses_cq_with_an_explicit_zero_bitrate() {
    for (quality, cq) in [
        (QualityPreset::High, "19"),
        (QualityPreset::Balanced, "24"),
        (QualityPreset::Small, "29"),
    ] {
        let args = build_args(&job(quality), "h264_nvenc", true, 1920, 1080, 30.0, None);
        assert!(has_pair(&args, "-c:v", "h264_nvenc"));
        assert!(has_pair(&args, "-rc", "vbr"));
        assert_eq!(value_after(&args, "-cq"), Some(cq));
        // Without this the VBR controller ignores -cq and caps the stream.
        assert!(has_pair(&args, "-b:v", "0"));
        assert!(!has(&args, "-crf"));
        assert!(!has(&args, "-preset"));
    }
}

#[test]
fn qsv_uses_global_quality() {
    for (quality, gq) in [
        (QualityPreset::High, "19"),
        (QualityPreset::Balanced, "24"),
        (QualityPreset::Small, "29"),
    ] {
        let args = build_args(&job(quality), "h264_qsv", true, 1920, 1080, 30.0, None);
        assert!(has_pair(&args, "-c:v", "h264_qsv"));
        assert_eq!(value_after(&args, "-global_quality"), Some(gq));
        assert!(!has(&args, "-crf"));
        assert!(!has(&args, "-cq"));
    }
}

#[test]
fn amf_uses_cqp_quantisers() {
    for (quality, qp) in [
        (QualityPreset::High, "19"),
        (QualityPreset::Balanced, "24"),
        (QualityPreset::Small, "29"),
    ] {
        let args = build_args(&job(quality), "h264_amf", true, 1920, 1080, 30.0, None);
        assert!(has_pair(&args, "-c:v", "h264_amf"));
        assert!(has_pair(&args, "-rc", "cqp"));
        assert_eq!(value_after(&args, "-qp_i"), Some(qp));
        assert_eq!(value_after(&args, "-qp_p"), Some(qp));
        assert_eq!(value_after(&args, "-qp_b"), Some(qp));
        assert!(!has(&args, "-crf"));
        assert!(!has(&args, "-global_quality"));
    }
}

#[test]
fn webm_uses_vp9_and_opus_with_the_speed_flags() {
    for (quality, crf) in [
        (QualityPreset::High, "30"),
        (QualityPreset::Balanced, "34"),
        (QualityPreset::Small, "38"),
    ] {
        let mut j = job(quality);
        j.format = ExportFormat::Webm;
        j.output = "C:\\clips\\out.webm".to_string();
        // The encoder argument is the detected h264 hardware encoder; a
        // webm job must ignore it entirely.
        let args = build_args(&j, "h264_nvenc", true, 1920, 1080, 30.0, None);
        assert!(has_pair(&args, "-c:v", "libvpx-vp9"), "{:?}", quality);
        assert!(!has_pair(&args, "-c:v", "h264_nvenc"));
        assert!(has_pair(&args, "-b:v", "0"));
        assert_eq!(value_after(&args, "-crf"), Some(crf), "{:?}", quality);
        assert!(has_pair(&args, "-row-mt", "1"));
        assert!(has_pair(&args, "-cpu-used", "4"));
        assert!(has_pair(&args, "-c:a", "libopus"));
        assert_eq!(value_after(&args, "-b:a"), Some("128k"));
        assert!(has_pair(&args, "-pix_fmt", "yuv420p"));
        assert!(!has(&args, "-movflags"));
        assert!(!has(&args, "-preset"));
        assert!(!has(&args, "-cq"));
    }
}

#[test]
fn webm_fit_computes_a_constrained_vp9_bitrate() {
    let mut j = fit_job(10.0);
    j.format = ExportFormat::Webm;
    j.output = "C:\\clips\\out.webm".to_string();
    j.in_point = q(0.0);
    j.out_point = q(20.0);
    j.mute = true;
    let args = build_args(&j, "libx264", true, 1920, 1080, 30.0, None);
    // (10_000_000 * 8 * 0.93 - 0) / 20 / 1000 = 3720
    assert!(has_pair(&args, "-c:v", "libvpx-vp9"));
    assert_eq!(value_after(&args, "-b:v"), Some("3720k"));
    assert_eq!(value_after(&args, "-maxrate"), Some("3720k"));
    assert_eq!(value_after(&args, "-bufsize"), Some("7440k"));
    assert!(has_pair(&args, "-row-mt", "1"));
    assert!(!has(&args, "-crf"));

    // With audio, the 128k opus allowance comes off the video budget:
    // (10_000_000 * 8 * 0.93 - 128_000 * 20) / 20 / 1000 = 3592
    j.mute = false;
    let args = build_args(&j, "libx264", true, 1920, 1080, 30.0, None);
    assert_eq!(value_after(&args, "-b:v"), Some("3592k"));
    assert!(has_pair(&args, "-c:a", "libopus"));
    assert_eq!(value_after(&args, "-b:a"), Some("128k"));
}

#[test]
fn gif_builds_the_palette_chain_for_each_quality() {
    for (quality, expected) in [
        (
            QualityPreset::High,
            "fps=20,scale='min(iw,640)':-2:flags=lanczos,split[a][b];[a]palettegen=stats_mode=diff[p];[b][p]paletteuse=dither=bayer:bayer_scale=5",
        ),
        (
            QualityPreset::Balanced,
            "fps=15,scale='min(iw,480)':-2:flags=lanczos,split[a][b];[a]palettegen=stats_mode=diff[p];[b][p]paletteuse=dither=bayer:bayer_scale=5",
        ),
        (
            QualityPreset::Small,
            "fps=10,scale='min(iw,360)':-2:flags=lanczos,split[a][b];[a]palettegen=stats_mode=diff[p];[b][p]paletteuse=dither=bayer:bayer_scale=5",
        ),
    ] {
        let mut j = job(quality);
        j.format = ExportFormat::Gif;
        j.output = "C:\\clips\\out.gif".to_string();
        let args = build_args(&j, "libx264", true, 1920, 1080, 30.0, None);
        assert_eq!(
            value_after(&args, "-filter_complex"),
            Some(expected),
            "{:?}",
            quality
        );
        assert!(has_pair(&args, "-loop", "0"), "{:?}", quality);
        // The graph output is the only mapped stream, so none of the
        // stream-selection or video-codec flags may appear.
        assert!(!has(&args, "-map"));
        assert!(!has(&args, "-an"));
        assert!(!has(&args, "-vf"));
        assert!(!has(&args, "-c:v"));
        assert!(!has(&args, "-c:a"));
        assert!(!has(&args, "-pix_fmt"));
        assert!(!has(&args, "-movflags"));
        assert_eq!(args.last().unwrap(), "C:\\clips\\out.gif");
    }
}

#[test]
fn gif_prepends_crop_setpts_and_reverse_into_the_complex_chain() {
    let mut j = job(QualityPreset::Balanced);
    j.format = ExportFormat::Gif;
    j.output = "C:\\clips\\out.gif".to_string();
    j.crop = Some(Rect {
        x: 10,
        y: 20,
        w: 1280,
        h: 720,
    });
    j.speed = q(2.0);
    j.reverse = true;
    let args = build_args(&j, "libx264", true, 1920, 1080, 30.0, None);
    assert_eq!(
        value_after(&args, "-filter_complex"),
        Some(
            "crop=1280:720:10:20,setpts=PTS/2.0,reverse,fps=15,scale='min(iw,480)':-2:flags=lanczos,split[a][b];[a]palettegen=stats_mode=diff[p];[b][p]paletteuse=dither=bayer:bayer_scale=5"
        )
    );
}

#[test]
fn audio_formats_pick_the_right_codec_and_bitrate_per_quality() {
    for (format, ext, codec, rates) in [
        (ExportFormat::Mp3, "mp3", "libmp3lame", ["256k", "192k", "128k"]),
        (ExportFormat::M4a, "m4a", "aac", ["256k", "160k", "96k"]),
        (ExportFormat::Opus, "opus", "libopus", ["192k", "128k", "96k"]),
    ] {
        for (quality, rate) in [
            (QualityPreset::High, rates[0]),
            (QualityPreset::Balanced, rates[1]),
            (QualityPreset::Small, rates[2]),
        ] {
            let mut j = job(quality);
            j.format = format;
            j.output = format!("C:\\clips\\out.{}", ext);
            let args = build_args(&j, "libx264", true, 1920, 1080, 30.0, None);
            assert!(has(&args, "-vn"), "{:?} {:?}", format, quality);
            assert!(has_pair(&args, "-map", "0:a:0"), "{:?}", format);
            assert!(has_pair(&args, "-c:a", codec), "{:?} {:?}", format, quality);
            assert_eq!(
                value_after(&args, "-b:a"),
                Some(rate),
                "{:?} {:?}",
                format,
                quality
            );
            // Nothing video-shaped may leak into an audio export.
            assert!(!has(&args, "-c:v"), "{:?}", format);
            assert!(!has(&args, "-pix_fmt"), "{:?}", format);
            assert!(!has(&args, "-vf"), "{:?}", format);
        }
    }
}

#[test]
fn wav_and_flac_ignore_the_quality_dial() {
    for (format, ext, codec) in [
        (ExportFormat::Wav, "wav", "pcm_s16le"),
        (ExportFormat::Flac, "flac", "flac"),
    ] {
        for quality in [QualityPreset::High, QualityPreset::Small] {
            let mut j = job(quality);
            j.format = format;
            j.output = format!("C:\\clips\\out.{}", ext);
            let args = build_args(&j, "libx264", true, 1920, 1080, 30.0, None);
            assert!(has_pair(&args, "-c:a", codec), "{:?}", format);
            assert!(!has(&args, "-b:a"), "{:?} {:?}", format, quality);
            assert!(!has(&args, "-q:a"), "{:?} {:?}", format, quality);
        }
    }
}

#[test]
fn ogg_uses_the_vorbis_quality_scale() {
    for (quality, q) in [
        (QualityPreset::High, "7"),
        (QualityPreset::Balanced, "5"),
        (QualityPreset::Small, "3"),
    ] {
        let mut j = job(quality);
        j.format = ExportFormat::Ogg;
        j.output = "C:\\clips\\out.ogg".to_string();
        let args = build_args(&j, "libx264", true, 1920, 1080, 30.0, None);
        assert!(has_pair(&args, "-c:a", "libvorbis"));
        assert_eq!(value_after(&args, "-q:a"), Some(q), "{:?}", quality);
        assert!(!has(&args, "-b:a"), "{:?}", quality);
    }
}

#[test]
fn audio_exports_apply_speed_volume_and_reverse() {
    let mut j = job(QualityPreset::Balanced);
    j.format = ExportFormat::Mp3;
    j.output = "C:\\clips\\out.mp3".to_string();
    j.speed = q(2.0);
    j.volume = q(0.5);
    j.reverse = true;
    // Crop is irrelevant on this path - the video it would apply to is
    // dropped by -vn - and must not sneak in as a -vf.
    j.crop = Some(Rect {
        x: 0,
        y: 0,
        w: 640,
        h: 360,
    });
    let args = build_args(&j, "libx264", true, 1920, 1080, 30.0, None);
    assert_eq!(
        value_after(&args, "-af"),
        Some("atempo=2.0,volume=0.5,areverse")
    );
    assert!(!has(&args, "-vf"));
}

#[test]
fn audio_fit_gives_the_whole_budget_to_the_bitrate() {
    let mut j = fit_job(2.0);
    j.format = ExportFormat::Mp3;
    j.output = "C:\\clips\\out.mp3".to_string();
    j.in_point = q(0.0);
    j.out_point = q(60.0);
    // (2_000_000 * 8 * 0.93) / 60 / 1000 = 248 - no audio allowance to
    // subtract because the audio IS the budget.
    let args = build_args(&j, "libx264", true, 1920, 1080, 30.0, None);
    assert!(has_pair(&args, "-c:a", "libmp3lame"));
    assert_eq!(value_after(&args, "-b:a"), Some("248k"));
    assert!(!has(&args, "-b:v"));
    assert!(!has(&args, "-maxrate"));

    // A pathological budget clamps to the 32k floor instead of asking lame
    // for a rate it refuses.
    let mut j = fit_job(0.5);
    j.format = ExportFormat::Mp3;
    j.output = "C:\\clips\\out.mp3".to_string();
    j.in_point = q(0.0);
    j.out_point = q(200.0);
    let args = build_args(&j, "libx264", true, 1920, 1080, 30.0, None);
    assert_eq!(value_after(&args, "-b:a"), Some("32k"));
}

#[test]
fn ogg_fit_switches_from_quality_scale_to_bitrate() {
    let mut j = fit_job(2.0);
    j.format = ExportFormat::Ogg;
    j.output = "C:\\clips\\out.ogg".to_string();
    j.in_point = q(0.0);
    j.out_point = q(60.0);
    let args = build_args(&j, "libx264", true, 1920, 1080, 30.0, None);
    assert!(has_pair(&args, "-c:a", "libvorbis"));
    assert_eq!(value_after(&args, "-b:a"), Some("248k"));
    assert!(!has(&args, "-q:a"));
}

#[test]
fn fit_bitrate_arithmetic_muted() {
    let mut j = fit_job(10.0);
    j.in_point = q(0.0);
    j.out_point = q(30.0);
    j.mute = true;
    let args = build_args(&j, "libx264", true, 1920, 1080, 30.0, None);

    // (10_000_000 * 8 * 0.93 - 0) / 30 / 1000 = 2480
    assert_eq!(value_after(&args, "-b:v"), Some("2480k"));
    assert_eq!(value_after(&args, "-maxrate"), Some("2480k"));
    assert_eq!(value_after(&args, "-bufsize"), Some("4960k"));
    assert!(!has(&args, "-crf"));
}

#[test]
fn fit_bitrate_arithmetic_subtracts_the_audio_allowance() {
    let mut j = fit_job(10.0);
    j.in_point = q(0.0);
    j.out_point = q(20.0);
    let args = build_args(&j, "libx264", true, 1920, 1080, 30.0, None);

    // (10_000_000 * 8 * 0.93 - 128_000 * 20) / 20 / 1000 = 3592
    assert_eq!(value_after(&args, "-b:v"), Some("3592k"));
    assert_eq!(value_after(&args, "-bufsize"), Some("7184k"));
    assert_eq!(value_after(&args, "-b:a"), Some("128k"));
}

#[test]
fn fit_bitrate_arithmetic_accounts_for_speed() {
    let mut j = fit_job(25.0);
    j.in_point = q(0.0);
    j.out_point = q(120.0);
    j.speed = q(2.0);
    let args = build_args(&j, "libx264", true, 1920, 1080, 30.0, None);

    // Output is 60s long, not 120s:
    // (25_000_000 * 8 * 0.93 - 128_000 * 60) / 60 / 1000 = 2972
    assert_eq!(value_after(&args, "-b:v"), Some("2972k"));
    assert_eq!(value_after(&args, "-maxrate"), Some("2972k"));
}

#[test]
fn a_fit_without_a_target_falls_back_to_constant_quality() {
    // The checks cover target_mb whenever quality is Fit, so this pair should never arrive -
    // but a balanced CRF beats a panic or a 100 kbps slideshow.
    let mut j = job(QualityPreset::Fit);
    j.target_mb = None;
    let args = build_args(&j, "libx264", true, 1920, 1080, 30.0, None);
    assert!(!has(&args, "-b:v"));
    assert_eq!(value_after(&args, "-crf"), Some("23"));
}

#[test]
fn a_size_target_on_a_hardware_encoder_still_uses_bitrate_not_cq() {
    let mut j = fit_job(10.0);
    j.in_point = q(0.0);
    j.out_point = q(20.0);
    let args = build_args(&j, "h264_nvenc", true, 1920, 1080, 30.0, None);
    assert_eq!(value_after(&args, "-b:v"), Some("3592k"));
    assert!(!has(&args, "-cq"));
    assert!(!has(&args, "-preset"));
}

#[test]
fn auto_downscale_does_not_fire_when_the_budget_is_comfortable() {
    let mut j = fit_job(10.0);
    j.in_point = q(0.0);
    j.out_point = q(10.0);
    j.mute = true;
    let args = build_args(&j, "libx264", true, 1920, 1080, 30.0, None);
    // 7440 kbps over 1920x1080x30 is 0.12 bpp, well clear of the floor.
    assert_eq!(value_after(&args, "-b:v"), Some("7440k"));
    assert!(!has(&args, "-vf"));
}

#[test]
fn auto_downscale_steps_to_720p() {
    let mut j = fit_job(10.0);
    j.in_point = q(0.0);
    j.out_point = q(60.0);
    j.mute = true;
    let args = build_args(&j, "libx264", true, 1920, 1080, 30.0, None);
    // 1240 kbps is 0.020 bpp at 1080p and 0.045 bpp at 720p.
    assert_eq!(value_after(&args, "-b:v"), Some("1240k"));
    assert_eq!(value_after(&args, "-vf"), Some("scale=1280:-2"));
}

#[test]
fn auto_downscale_keeps_stepping_when_720p_is_still_too_thin() {
    let mut j = fit_job(10.0);
    j.in_point = q(0.0);
    j.out_point = q(120.0);
    j.mute = true;
    let args = build_args(&j, "libx264", true, 1920, 1080, 30.0, None);
    // 620 kbps is 0.022 bpp at 720p and 0.050 bpp at 854x480.
    assert_eq!(value_after(&args, "-b:v"), Some("620k"));
    assert_eq!(value_after(&args, "-vf"), Some("scale=854:-2"));
}

#[test]
fn auto_downscale_stops_at_the_bottom_rung() {
    let mut j = fit_job(10.0);
    j.in_point = q(0.0);
    j.out_point = q(900.0);
    j.mute = true;
    let args = build_args(&j, "libx264", true, 1920, 1080, 30.0, None);
    assert_eq!(value_after(&args, "-vf"), Some("scale=640:-2"));
}

#[test]
fn auto_downscale_never_upscales_a_small_source() {
    let mut j = fit_job(10.0);
    j.in_point = q(0.0);
    j.out_point = q(900.0);
    j.mute = true;
    let args = build_args(&j, "libx264", true, 640, 360, 30.0, None);
    assert!(!has(&args, "-vf"));
}

#[test]
fn auto_downscale_measures_the_cropped_size_not_the_source_size() {
    let mut j = fit_job(10.0);
    j.in_point = q(0.0);
    j.out_point = q(60.0);
    j.mute = true;
    // Cropping 1080p down to 720p already fixes the bits-per-pixel, so no
    // scale filter should be appended even though the source is 1080p.
    j.crop = Some(Rect {
        x: 0,
        y: 0,
        w: 1280,
        h: 720,
    });
    let args = build_args(&j, "libx264", true, 1920, 1080, 30.0, None);
    assert_eq!(value_after(&args, "-vf"), Some("crop=1280:720:0:0"));
}

#[test]
fn auto_downscale_is_only_a_size_target_behaviour() {
    let mut j = job(QualityPreset::Small);
    j.in_point = q(0.0);
    j.out_point = q(900.0);
    let args = build_args(&j, "libx264", true, 1920, 1080, 30.0, None);
    assert!(!has(&args, "-vf"));
    assert!(!has(&args, "-b:v"));
}

#[test]
fn every_reencode_carries_the_compatibility_and_progress_flags() {
    let mut j = job(QualityPreset::High);
    j.speed = q(1.5);
    j.crop = Some(Rect {
        x: 4,
        y: 4,
        w: 800,
        h: 600,
    });
    let args = build_args(&j, "libx264", true, 1920, 1080, 30.0, None);

    assert_eq!(args[0], "-y");
    assert!(has_pair(&args, "-pix_fmt", "yuv420p"));
    assert!(has_pair(&args, "-movflags", "+faststart"));
    assert!(has_pair(&args, "-progress", "pipe:1"));
    assert!(has(&args, "-nostats"));
    assert_eq!(args.last().unwrap(), "C:\\clips\\my video_clip.mp4");
}

#[test]
fn a_non_mp4_output_does_not_get_movflags() {
    // The mov/mp4 muxer owns -movflags, so passing it to the Matroska or
    // WebM muxer aborts the run outright.
    for (name, format) in [
        ("out.mkv", ExportFormat::Mkv),
        ("out.webm", ExportFormat::Webm),
        ("out", ExportFormat::Mkv),
    ] {
        let mut j = job(QualityPreset::Balanced);
        j.format = format;
        j.output = format!("C:\\clips\\{}", name);
        let args = build_args(&j, "libx264", true, 1920, 1080, 30.0, None);
        assert!(!has(&args, "-movflags"), "{}", name);
        assert!(has_pair(&args, "-pix_fmt", "yuv420p"), "{}", name);

        j.lossless = true;
        let args = build_args(&j, "libx264", true, 1920, 1080, 30.0, None);
        assert!(!has(&args, "-movflags"), "lossless {}", name);
        assert_eq!(args.last().unwrap(), &format!("C:\\clips\\{}", name));
    }

    // The rest of the mp4 family keeps it, in both modes.
    for name in ["out.MP4", "out.m4v", "out.mov"] {
        let mut j = job(QualityPreset::Balanced);
        j.output = format!("C:\\clips\\{}", name);
        let args = build_args(&j, "libx264", true, 1920, 1080, 30.0, None);
        assert!(has_pair(&args, "-movflags", "+faststart"), "{}", name);

        j.lossless = true;
        let args = build_args(&j, "libx264", true, 1920, 1080, 30.0, None);
        assert!(
            has_pair(&args, "-movflags", "+faststart"),
            "lossless {}",
            name
        );
    }
}

#[test]
fn faststart_covers_m4a_but_no_other_audio_container() {
    // .m4a is the mov/mp4 muxer wearing another extension, so it wants +faststart; every other
    // audio container's muxer would abort on the unknown option.
    let mut j = job(QualityPreset::Balanced);
    j.format = ExportFormat::M4a;
    j.output = "C:\\clips\\out.m4a".to_string();
    let args = build_args(&j, "libx264", true, 1920, 1080, 30.0, None);
    assert!(has_pair(&args, "-movflags", "+faststart"));

    for (format, ext) in [
        (ExportFormat::Mp3, "mp3"),
        (ExportFormat::Wav, "wav"),
        (ExportFormat::Flac, "flac"),
        (ExportFormat::Ogg, "ogg"),
        (ExportFormat::Opus, "opus"),
    ] {
        let mut j = job(QualityPreset::Balanced);
        j.format = format;
        j.output = format!("C:\\clips\\out.{}", ext);
        let args = build_args(&j, "libx264", true, 1920, 1080, 30.0, None);
        assert!(!has(&args, "-movflags"), "{:?}", format);
    }
}

#[test]
fn the_full_combination_produces_the_exact_expected_vector() {
    let mut j = job(QualityPreset::Balanced);
    j.in_point = q(2.0);
    j.out_point = q(12.0);
    j.speed = q(2.0);
    j.crop = Some(Rect {
        x: 11,
        y: 21,
        w: 1281,
        h: 721,
    });
    let args = build_args(&j, "libx264", true, 1920, 1080, 30.0, None);

    assert_eq!(
        args,
        vec![
            "-y",
            "-progress",
            "pipe:1",
            "-nostats",
            "-ss",
            "2.000",
            "-t",
            "10.000",
            "-i",
            "C:\\clips\\my video.mp4",
            "-map",
            "0:v:0",
            "-map",
            "0:a:0?",
            "-vf",
            "crop=1280:720:10:20,setpts=PTS/2.0",
            "-af",
            "atempo=2.0",
            "-c:v",
            "libx264",
            "-preset",
            "veryfast",
            "-crf",
            "23",
            "-c:a",
            "aac",
            "-b:a",
            "128k",
            "-pix_fmt",
            "yuv420p",
            "-movflags",
            "+faststart",
            "C:\\clips\\my video_clip.mp4",
        ]
        .iter()
        .map(|s| s.to_string())
        .collect::<Vec<String>>()
    );
}

#[test]
fn an_explicit_height_scales_the_short_edge_of_a_landscape_frame() {
    let mut j = job(QualityPreset::Balanced);
    j.output_height = Some(720);
    let args = build_args(&j, "libx264", true, 1920, 1080, 30.0, None);
    // "720p" names the height here, and -2 works out the width.
    assert_eq!(value_after(&args, "-vf"), Some("scale=-2:720"));
}

#[test]
fn an_explicit_height_scales_the_width_of_a_portrait_frame() {
    let mut j = job(QualityPreset::Balanced);
    j.output_height = Some(720);
    let args = build_args(&j, "libx264", true, 1080, 1920, 30.0, None);
    // A phone clip's short edge is its width, so the same "720p" request
    // has to land on the other axis or the frame comes out 405 wide.
    assert_eq!(value_after(&args, "-vf"), Some("scale=720:-2"));
}

#[test]
fn an_explicit_height_never_upscales() {
    for (source_w, source_h) in [(1280i64, 720i64), (720, 1280)] {
        for requested in [720, 1080, 2160] {
            let mut j = job(QualityPreset::Balanced);
            j.output_height = Some(requested);
            let args = build_args(&j, "libx264", true, source_w, source_h, 30.0, None);
            assert!(
                !has(&args, "-vf"),
                "{requested} on {source_w}x{source_h} emitted a scale filter"
            );
        }
    }
}

#[test]
fn an_explicit_height_measures_the_crop_not_the_source() {
    let mut j = job(QualityPreset::Balanced);
    // A portrait region cut out of a landscape source: the crop decides
    // which axis is the short one, so this has to flip to a width scale.
    j.crop = Some(Rect {
        x: 0,
        y: 0,
        w: 608,
        h: 1080,
    });
    j.output_height = Some(480);
    let args = build_args(&j, "libx264", true, 1920, 1080, 30.0, None);
    assert_eq!(
        value_after(&args, "-vf"),
        Some("crop=608:1080:0:0,scale=480:-2")
    );

    // And a crop that is already smaller than the request is left alone.
    j.output_height = Some(720);
    let args = build_args(&j, "libx264", true, 1920, 1080, 30.0, None);
    assert_eq!(value_after(&args, "-vf"), Some("crop=608:1080:0:0"));
}

#[test]
fn the_scale_sits_between_setpts_and_reverse() {
    let mut j = job(QualityPreset::Balanced);
    j.crop = Some(Rect {
        x: 0,
        y: 0,
        w: 1920,
        h: 1080,
    });
    j.speed = q(2.0);
    j.reverse = true;
    j.output_height = Some(480);
    let args = build_args(&j, "libx264", true, 1920, 1080, 30.0, None);
    assert_eq!(
        value_after(&args, "-vf"),
        Some("crop=1920:1080:0:0,setpts=PTS/2.0,scale=-2:480,reverse")
    );
}

#[test]
fn an_explicit_height_wins_over_the_fit_ladder() {
    let mut j = fit_job(10.0);
    j.in_point = q(0.0);
    j.out_point = q(900.0);
    j.mute = true;
    // Left alone this budget walks the ladder all the way to 640 wide.
    j.output_height = Some(1080);
    let args = build_args(&j, "libx264", true, 1920, 1080, 30.0, None);
    assert!(!has(&args, "-vf"), "the ladder overrode the explicit height");

    j.output_height = Some(480);
    let args = build_args(&j, "libx264", true, 1920, 1080, 30.0, None);
    assert_eq!(value_after(&args, "-vf"), Some("scale=-2:480"));
}

#[test]
fn gif_and_audio_formats_ignore_the_explicit_size_and_rate() {
    let mut j = job(QualityPreset::Balanced);
    j.output_height = Some(360);
    j.video_kbps = Some(4000);

    j.format = ExportFormat::Gif;
    j.output = "C:\\clips\\out.gif".to_string();
    let args = build_args(&j, "libx264", true, 1920, 1080, 30.0, None);
    // The gif chain owns its own width and frame rate caps.
    assert_eq!(
        value_after(&args, "-filter_complex"),
        Some("fps=15,scale='min(iw,480)':-2:flags=lanczos,split[a][b];[a]palettegen=stats_mode=diff[p];[b][p]paletteuse=dither=bayer:bayer_scale=5")
    );
    assert!(!has(&args, "-b:v"));

    j.format = ExportFormat::Mp3;
    j.output = "C:\\clips\\out.mp3".to_string();
    let args = build_args(&j, "libx264", true, 1920, 1080, 30.0, None);
    assert!(!has(&args, "-vf"));
    assert!(!has(&args, "-b:v"));
    assert_eq!(value_after(&args, "-b:a"), Some("192k"));
}

#[test]
fn an_explicit_bitrate_replaces_the_constant_quality_flags() {
    for encoder in ["libx264", "h264_nvenc", "h264_qsv", "h264_amf"] {
        let mut j = job(QualityPreset::High);
        j.video_kbps = Some(2500);
        let args = build_args(&j, encoder, true, 1920, 1080, 30.0, None);

        assert_eq!(value_after(&args, "-b:v"), Some("2500k"), "{encoder}");
        assert_eq!(value_after(&args, "-maxrate"), Some("2500k"), "{encoder}");
        assert_eq!(value_after(&args, "-bufsize"), Some("5000k"), "{encoder}");
        assert!(!has(&args, "-crf"), "{encoder}");
        assert!(!has(&args, "-cq"), "{encoder}");
        assert!(!has(&args, "-global_quality"), "{encoder}");
        assert!(!has(&args, "-qp_i"), "{encoder}");
        // The audio rate still comes from the quality preset.
        assert_eq!(value_after(&args, "-b:a"), Some("160k"), "{encoder}");
    }
}

#[test]
fn an_explicit_bitrate_drives_vp9_too() {
    let mut j = job(QualityPreset::Balanced);
    j.format = ExportFormat::Webm;
    j.output = "C:\\clips\\out.webm".to_string();
    j.video_kbps = Some(1500);
    let args = build_args(&j, "libx264", true, 1920, 1080, 30.0, None);
    assert!(has_pair(&args, "-c:v", "libvpx-vp9"));
    assert_eq!(value_after(&args, "-b:v"), Some("1500k"));
    assert_eq!(value_after(&args, "-bufsize"), Some("3000k"));
    // -b:v 0 is the constant-quality spelling; with a real rate it must go.
    assert!(!has_pair(&args, "-b:v", "0"));
    assert!(!has(&args, "-crf"));
    assert!(has_pair(&args, "-row-mt", "1"));
}

#[test]
fn a_size_target_overrides_an_explicit_bitrate() {
    // The checks refuse this pair, so this only pins what a job that
    // skipped validation does: the target owns the rate.
    let mut j = fit_job(10.0);
    j.in_point = q(0.0);
    j.out_point = q(30.0);
    j.mute = true;
    j.video_kbps = Some(9999);
    let args = build_args(&j, "libx264", true, 1920, 1080, 30.0, None);
    assert_eq!(value_after(&args, "-b:v"), Some("2480k"));
}

/// A curve of all 1s has to leave the argument vector exactly as the speed slider alone would,
/// or every existing export quietly starts going through the ramp path.
#[test]
fn a_flat_curve_produces_the_same_arguments_as_no_curve_at_all() {
    let mut plain = job(QualityPreset::Balanced);
    plain.input = "landscape-1080p.mp4".to_string();
    plain.output = "out-flat-plain.mp4".to_string();
    plain.in_point = q(0.0);
    plain.out_point = q(5.0);
    plain.speed = q(2.0);
    let mut flat = plain.clone();
    flat.ramp = vec![
        SpeedPoint { t: q(0.0), speed: q(1.0) },
        SpeedPoint { t: q(5.0), speed: q(1.0) },
    ];

    let a = build_args(&plain, "libx264", true, 1920, 1080, 30.0, None);
    let b = build_args(&flat, "libx264", true, 1920, 1080, 30.0, None);
    assert_eq!(a, b);
}
