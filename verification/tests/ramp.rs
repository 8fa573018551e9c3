use flipperclipper::ramp;
use flipperclipper::ramp::{
    audio_stages, has_ramp, segment_output, setpts_expression, speed_bounds, Segment, SpeedPoint,
    AUDIO_STEP_SECONDS, RAMP_EPSILON,
};

/// A quantity as the library carries it.
fn q(v: f64) -> i64 {
    (v * 1e9).round() as i64
}

/// A quantity of the library as a plain number.
fn unq(v: i64) -> f64 {
    v as f64 / 1e9
}

fn points(pairs: &[(f64, f64)]) -> Vec<SpeedPoint> {
    pairs
        .iter()
        .map(|(t, speed)| SpeedPoint {
            t: q(*t),
            speed: q(*speed),
        })
        .collect()
}

fn logs_of(segs: &[Segment]) -> Vec<i64> {
    segs.iter()
        .map(|s| ((s.speed_to as f64 / s.speed_from as f64).ln() * 1e15).round() as i64)
        .collect()
}

fn multiplier_at(p: &[SpeedPoint], t: f64) -> f64 {
    unq(ramp::multiplier_at(p, q(t)))
}

fn segments(p: &[SpeedPoint], base: f64, in_point: f64, out_point: f64) -> Vec<Segment> {
    ramp::segments(p, q(base), q(in_point), q(out_point))
}

fn ramped_duration(p: &[SpeedPoint], base: f64, in_point: f64, out_point: f64) -> f64 {
    let logs = logs_of(&segments(p, base, in_point, out_point));
    unq(ramp::ramped_duration(p, q(base), q(in_point), q(out_point), &logs))
}

fn setpts(segs: &[Segment]) -> Option<String> {
    setpts_expression(segs, &logs_of(segs))
}

/// The commands back out of the `asendcmd=c='...'` the stage wraps them in.
fn commands_in(stage: &str) -> Vec<&str> {
    stage
        .trim_start_matches("asendcmd=c='")
        .trim_end_matches('\'')
        .split(';')
        .collect()
}

/// The expression is what ffmpeg will evaluate, so evaluating it here is the only check
/// that its arithmetic matches the integral in `segment_output`.
fn eval(segs: &[Segment], t: f64) -> f64 {
    let mut offset = 0.0;
    for (i, segment) in segs.iter().enumerate() {
        let (from, to) = (unq(segment.from), unq(segment.to));
        let (start, end) = (unq(segment.speed_from), unq(segment.speed_to));
        if t < to || i == segs.len() - 1 {
            let stop = t.min(to);
            let part = if (end - start).abs() < unq(RAMP_EPSILON) {
                (stop - from) / start
            } else {
                let k = (end - start) / (to - from);
                let at = start + k * (stop - from);
                (1.0 / k) * (at / start).ln()
            };
            return offset + part;
        }
        offset += unq(segment_output(segment, logs_of(&segs[i..i + 1])[0]));
    }
    offset
}

#[test]
fn an_empty_curve_is_the_speed_slider_on_its_own() {
    assert!(!has_ramp(&[]));
    assert!(!has_ramp(&points(&[(0.0, 1.0), (5.0, 1.0)])));
    assert!(has_ramp(&points(&[(0.0, 1.0), (5.0, 2.0)])));
    assert_eq!(multiplier_at(&[], 3.0), 1.0);
}

#[test]
fn the_multiplier_holds_flat_outside_the_points() {
    let p = points(&[(2.0, 1.0), (4.0, 3.0)]);
    assert_eq!(multiplier_at(&p, 0.0), 1.0);
    assert_eq!(multiplier_at(&p, 2.0), 1.0);
    assert_eq!(multiplier_at(&p, 3.0), 2.0);
    assert_eq!(multiplier_at(&p, 4.0), 3.0);
    assert_eq!(multiplier_at(&p, 9.0), 3.0);
}

#[test]
fn a_flat_curve_divides_the_trim_the_way_one_speed_would() {
    let d = ramped_duration(&[], 2.0, 10.0, 20.0);
    assert!((d - 5.0).abs() < 1e-9, "{d}");
}

#[test]
fn a_ramp_integrates_rather_than_averaging_its_ends() {
    // 1x to 4x over 2 seconds. The mean of the ends would say 2/2.5 = 0.8s; the integral
    // of 1/speed says (2/3)ln(4) = 0.924s, and the file is the length of the integral.
    let p = points(&[(0.0, 1.0), (2.0, 4.0)]);
    let d = ramped_duration(&p, 1.0, 0.0, 2.0);
    assert!((d - (2.0 / 3.0) * 4.0_f64.ln()).abs() < 1e-9, "{d}");
    assert!(d > 0.8, "the integral must exceed the average of the ends");
}

#[test]
fn the_job_speed_multiplies_through_the_whole_curve() {
    let p = points(&[(0.0, 1.0), (2.0, 4.0)]);
    let single = ramped_duration(&p, 1.0, 0.0, 2.0);
    let doubled = ramped_duration(&p, 2.0, 0.0, 2.0);
    assert!((doubled - single / 2.0).abs() < 1e-9, "{doubled} vs {single}");
}

#[test]
fn segments_are_rebased_onto_the_trim() {
    // ffmpeg's -ss rebases timestamps, so a point 12s into the source is 2s into the graph.
    let p = points(&[(10.0, 1.0), (12.0, 2.0)]);
    let segs = segments(&p, 1.0, 10.0, 14.0);
    assert_eq!(segs.len(), 2);
    assert_eq!(unq(segs[0].from), 0.0);
    assert_eq!(unq(segs[0].to), 2.0);
    assert_eq!(unq(segs[1].to), 4.0);
    // Held flat past the last point.
    assert_eq!(unq(segs[1].speed_from), 2.0);
    assert_eq!(unq(segs[1].speed_to), 2.0);
}

#[test]
fn a_point_outside_the_trim_still_bends_the_speed_inside_it() {
    // The curve is a property of the source, so trimming into the middle of a ramp starts
    // partway up it rather than at 1x.
    let p = points(&[(0.0, 1.0), (10.0, 3.0)]);
    let segs = segments(&p, 1.0, 5.0, 6.0);
    assert_eq!(segs.len(), 1);
    assert!((unq(segs[0].speed_from) - 2.0).abs() < 1e-9, "{:?}", segs[0]);
    assert!((unq(segs[0].speed_to) - 2.2).abs() < 1e-9, "{:?}", segs[0]);
}

#[test]
fn a_flat_curve_emits_a_plain_division_rather_than_a_logarithm() {
    let segs = segments(&[], 2.0, 0.0, 5.0);
    let expr = setpts(&segs).expect("a flat curve still has one segment");
    assert!(!expr.contains("log"), "{expr}");
    assert!(expr.contains("/2.0"), "{expr}");
}

#[test]
fn the_expression_nests_one_branch_per_segment() {
    let p = points(&[(0.0, 1.0), (2.0, 4.0), (4.0, 4.0)]);
    let segs = segments(&p, 1.0, 0.0, 6.0);
    let expr = setpts(&segs).expect("three segments");
    assert_eq!(segs.len(), 3);
    assert_eq!(expr.matches("if(lt(T,").count(), 2, "{expr}");
    assert_eq!(expr.matches("log(").count(), 1, "{expr}");
}

#[test]
fn the_expression_lands_on_the_same_duration_the_integral_predicts() {
    let p = points(&[(0.0, 1.0), (3.0, 1.0), (5.0, 4.0), (8.0, 4.0), (10.0, 1.0)]);
    let segs = segments(&p, 1.0, 0.0, 10.0);
    let predicted = ramped_duration(&p, 1.0, 0.0, 10.0);
    let walked = eval(&segs, 10.0);
    assert!((walked - predicted).abs() < 1e-9, "{walked} vs {predicted}");
    // The measured render of exactly this curve came out at 5.6s against 5.598392.
    assert!((predicted - 5.598392).abs() < 1e-5, "{predicted}");
}

#[test]
fn a_flat_stretch_costs_one_tempo_command_however_long_it_is() {
    // Every tempo change loses a sliver of audio, so a constant section must not be
    // stepped just because it sits beside a ramp.
    let p = points(&[(0.0, 1.0), (60.0, 1.0)]);
    let segs = segments(&p, 1.0, 0.0, 60.0);
    let stages = audio_stages(&segs, AUDIO_STEP_SECONDS).expect("a flat curve still steps");
    assert_eq!(stages[0].matches(';').count(), 0, "{}", stages[0]);
}

#[test]
fn a_slope_is_stepped_at_the_audio_interval() {
    let p = points(&[(0.0, 1.0), (4.0, 2.0)]);
    let segs = segments(&p, 1.0, 0.0, 4.0);
    let stages = audio_stages(&segs, AUDIO_STEP_SECONDS).expect("a slope steps");
    // Four seconds at half-second steps.
    assert_eq!(stages[0].matches(';').count(), 7, "{}", stages[0]);
}

#[test]
fn the_driven_stage_starts_at_one_and_the_fixed_stages_carry_the_slow_end() {
    // atempo refuses anything under 0.5, so a quarter-speed ramp has to put the 0.25 into
    // fixed stages and drive only what is left.
    let p = points(&[(0.0, 0.25), (4.0, 1.0)]);
    let segs = segments(&p, 1.0, 0.0, 4.0);
    let stages = audio_stages(&segs, AUDIO_STEP_SECONDS).expect("a slow ramp still steps");
    let joined = stages.join(",");
    assert!(joined.contains("atempo=0.5"), "{joined}");
    assert!(joined.contains("atempo@ramp="), "{joined}");
    // Nothing driven below atempo's floor.
    for command in commands_in(&stages[0]) {
        let tempo: f64 = command.rsplit(' ').next().unwrap().parse().unwrap();
        assert!(tempo >= 0.5, "{command}");
    }
}

#[test]
fn a_curve_wider_than_atempo_can_follow_is_refused_rather_than_clipped() {
    let p = points(&[(0.0, 0.05), (4.0, 20.0)]);
    let segs = segments(&p, 1.0, 0.0, 4.0);
    assert!(speed_bounds(&segs).is_some());
    assert!(audio_stages(&segs, AUDIO_STEP_SECONDS).is_none());
}
