use flipperclipper::filters::{
    drawtext_filter, effect_filters, fade_filters, ffmpeg_color, graph_path, loudnorm_filter,
};
use flipperclipper::frame::{
    downscale_width, even_down, explicit_scale, follow, gif_caps, normalize_crop,
};
use flipperclipper::job::{Effects, Orientation, QualityPreset, Rect, TextAnchorX, TextAnchorY, TextOverlay};
use flipperclipper::number::is_change;
use flipperclipper::ramp::{
    audio_stages, multiplier_at, ramped_duration, segment_output, segments, setpts_expression,
    speed_bounds, Segment, SpeedPoint, AUDIO_STEP_SECONDS, RAMP_MAX, RAMP_MIN,
};
use flipperclipper::rates::{audio_kbps_for, cq_for, crf_for, vp9_crf_for};
use flipperclipper::tempo::atempo_chain;

fn q(v: f64) -> i64 {
    (v * 1e9).round() as i64
}

#[test]
fn a_crop_is_even_and_inside_the_frame() {
    for (x, y, w, h) in [(-5, -7, 101, 99), (1, 1, 1919, 1079), (1900, 1000, 500, 500), (3, 5, 7, 9)] {
        let crop = normalize_crop(&Rect { x, y, w, h }, 1920, 1080).expect("some of it is inside");
        assert!(crop.x >= 0 && crop.y >= 0, "{crop:?}");
        assert!(crop.x + crop.w <= 1920 && crop.y + crop.h <= 1080, "{crop:?}");
        assert_eq!((crop.w % 2, crop.h % 2), (0, 0), "{crop:?}");
    }
    assert!(normalize_crop(&Rect { x: 2000, y: 0, w: 10, h: 10 }, 1920, 1080).is_none());
}

#[test]
fn sizes_only_ever_go_down() {
    assert_eq!(even_down(1081), 1080);
    assert_eq!(even_down(1080), 1080);
    assert_eq!(follow(1920, 720, 1080), 1280);
    let scaled = explicit_scale(720, 1920, 1080).expect("720 is smaller");
    assert_eq!((scaled.width, scaled.height), (1280, 720));
    assert!(explicit_scale(2160, 1920, 1080).is_none());
    if let Some(width) = downscale_width(500, 1920, 1080, q(30.0)) {
        assert!(width < 1920 && width % 2 == 0);
    }
    assert!(downscale_width(50_000, 1920, 1080, q(30.0)).is_none());
}

#[test]
fn a_better_quality_never_asks_for_less() {
    let order = [QualityPreset::High, QualityPreset::Balanced, QualityPreset::Small];
    for pair in order.windows(2) {
        assert!(crf_for(pair[0]) < crf_for(pair[1]));
        assert!(cq_for(pair[0]) < cq_for(pair[1]));
        assert!(vp9_crf_for(pair[0]) < vp9_crf_for(pair[1]));
        assert!(audio_kbps_for(pair[0]) >= audio_kbps_for(pair[1]));
        assert!(gif_caps(pair[0]).0 >= gif_caps(pair[1]).0);
    }
}

#[test]
fn tempo_stages_make_up_the_speed() {
    for speed in [0.05, 0.3, 0.75, 1.5, 7.0, 20.0] {
        let product: f64 = atempo_chain(q(speed))
            .iter()
            .map(|s| s.trim_start_matches("atempo=").parse::<f64>().unwrap())
            .product();
        assert!((product - speed).abs() < 1e-5, "{speed}: {product}");
    }
}

#[test]
fn a_curve_never_leaves_its_range() {
    let widest = [
        SpeedPoint { t: q(0.0), speed: RAMP_MIN },
        SpeedPoint { t: q(4.0), speed: RAMP_MAX },
        SpeedPoint { t: q(5.0), speed: RAMP_MIN },
    ];
    for t in -1..7 {
        let m = multiplier_at(&widest, q(t as f64 / 1.25));
        assert!((RAMP_MIN..=RAMP_MAX).contains(&m), "{m}");
    }
    assert_eq!(multiplier_at(&widest, q(4.0)), RAMP_MAX);
}

#[test]
fn pieces_cover_the_trim_end_to_end() {
    let points = [
        SpeedPoint { t: q(1.0), speed: q(1.0) },
        SpeedPoint { t: q(2.5), speed: q(4.0) },
        SpeedPoint { t: q(9.0), speed: q(0.5) },
    ];
    let segs = segments(&points, q(1.0), q(2.0), q(12.0));
    assert_eq!(segs.first().unwrap().from, 0);
    assert_eq!(segs.last().unwrap().to, q(10.0));
    for pair in segs.windows(2) {
        assert_eq!(pair[0].to, pair[1].from);
        assert_eq!(pair[0].speed_to, pair[1].speed_from);
    }
}

#[test]
fn a_sloped_piece_lasts_its_integral() {
    let piece = Segment { from: 0, to: q(2.0), speed_from: q(1.0), speed_to: q(4.0) };
    let log = (4.0f64.ln() * 1e15).round() as i64;
    let expected = q(2.0 / 3.0 * 4.0f64.ln());
    assert!((segment_output(&piece, log) - expected).abs() <= 1);
    let flat = Segment { from: 0, to: q(3.0), speed_from: q(2.0), speed_to: q(2.0) };
    assert_eq!(segment_output(&flat, 0), q(1.5));
    assert_eq!(speed_bounds(&[piece, flat]), Some((q(1.0), q(4.0))));
    assert_eq!(speed_bounds(&[]), None);
    assert_eq!(ramped_duration(&[], q(2.0), 0, q(3.0), &[]), q(1.5));
    assert!(setpts_expression(&[], &[]).is_none());
    assert!(audio_stages(&[], AUDIO_STEP_SECONDS).is_none());
}

#[test]
fn fades_know_how_long_the_clip_is() {
    let mut fx = Effects::default();
    assert!(fade_filters(&fx, q(5.0), true).is_empty());
    fx.fade_in = Some(q(1.0));
    fx.fade_out = Some(q(1.0));
    let video = fade_filters(&fx, q(5.0), true);
    assert_eq!(video.len(), 2, "{video:?}");
    assert!(video[0].starts_with("fade="), "{video:?}");
    assert!(video[1].contains("4.0"), "{video:?}");
    let sound = fade_filters(&fx, q(5.0), false);
    assert!(sound[0].starts_with("afade="), "{sound:?}");
}

#[test]
fn nothing_asked_for_is_nothing_added() {
    assert!(!Effects::default().any());
    assert!(effect_filters(&Effects::default()).is_empty());
    assert!(!Orientation::default().any());
    assert!(Orientation::default().filters().is_empty());
    assert!(!is_change(q(1.0)));
    assert!(is_change(q(1.1)));
    for units in 999_999_990..=1_000_000_010_i64 {
        let factor = units as f64 / 1e9;
        assert_eq!(is_change(units), (factor - 1.0).abs() > 1e-9, "{factor}");
    }
    let turned = Orientation { rotate: 90, flip_h: false, flip_v: false };
    assert!(turned.any() && turned.swaps_axes());
    assert!(!Orientation { rotate: 180, ..Orientation::default() }.swaps_axes());
    assert!(loudnorm_filter().starts_with("loudnorm="));
}

#[test]
fn a_path_survives_a_filter_graph() {
    assert_eq!(graph_path("C:\\Windows\\Fonts\\arial.ttf"), "'C\\:/Windows/Fonts/arial.ttf'");
    assert_eq!(ffmpeg_color("#ffcc00"), "0xffcc00");
    let overlay = TextOverlay {
        text: "never in the graph".to_string(),
        size: q(0.07),
        color: "#ffffff".to_string(),
        opacity: q(1.0),
        anchor_x: TextAnchorX::Left,
        anchor_y: TextAnchorY::Top,
        boxed: true,
    };
    let filter = drawtext_filter(&overlay, "C:\\f.ttf");
    assert!(filter.starts_with("drawtext="), "{filter}");
    assert!(!filter.contains("never in the graph"), "{filter}");
}
