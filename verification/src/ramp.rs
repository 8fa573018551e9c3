//! The speed curve: how fast the clip runs at each moment, rather than all the way through.
//!
//! A ramp is a list of points on the source timeline, each a multiplier on the job's speed.
//! Between two points the multiplier moves linearly; outside them it holds. No points means a
//! flat 1.
//!
//! Output time is the integral of 1/speed. Linear speed integrates to a logarithm, so a sloped
//! piece needs the natural logarithm of the ratio of its two speeds. The caller works those out
//! and hands them in, one for each piece in the order of [`segments`], in units of 10^-15; a
//! piece without one counts as if its logarithm were zero.
//!
//! Audio cannot follow the same curve. `atempo` only takes one factor at a time, so the tempo is
//! stepped through the ramp by `asendcmd` instead, in coarse steps, because `atempo` loses a
//! sliver of audio at every change.

use vstd::prelude::*;
use vstd::string::*;

use crate::number;
use crate::number::{clamp64, div_round, fmt_num, fmt_ratio, is_change, part_way, scale_by, ONE};
use crate::tempo;
use crate::tempo::atempo_chain;
use crate::text;
use crate::text::join;

verus! {

broadcast use crate::text::texts_push;

/// Bounds on one point, matching the range of the speed slider.
pub const RAMP_MIN: i64 = 50_000_000;

pub const RAMP_MAX: i64 = 20_000_000_000;

/// Two points closer than this are the same instant, and the segment between them integrates to
/// nothing worth emitting.
pub const RAMP_EPSILON: i64 = 1_000_000;

/// How long the audio holds one tempo inside a ramp: slow enough to lose little audio, fast
/// enough that the tempo glide is not heard as a staircase.
pub const AUDIO_STEP_SECONDS: i64 = 500_000_000;

/// The most points a curve may carry. Each one nests another `if()` into the setpts expression.
pub const MAX_POINTS: usize = 24;

/// The widest ratio of fastest to slowest that one `atempo` stage can follow.
pub const MAX_AUDIO_SPAN: i64 = 100;

#[derive(Debug, Clone, Copy)]
pub struct SpeedPoint {
    /// When, on the source's timeline rather than the trim's.
    pub t: i64,
    /// Multiplier on the job's speed.
    pub speed: i64,
}

/// One piece of the curve, in time relative to the trim start.
#[derive(Debug, Clone, Copy, PartialEq, Eq, Structural)]
pub struct Segment {
    pub from: i64,
    pub to: i64,
    /// Effective speed, the job's speed already folded in.
    pub speed_from: i64,
    pub speed_to: i64,
}

// --- The curve ---

/// Whether a speed moves too little over a piece to count as a slope.
pub open spec fn flat(s: Segment) -> bool {
    number::abs(s.speed_to - s.speed_from) < 1000
}

/// Whether a curve does anything: some point differs from 1.
pub open spec fn ramped(points: Seq<SpeedPoint>) -> bool {
    exists|i: int| 0 <= i < points.len() && number::changes(#[trigger] points[i].speed as int)
}

/// The first point from `i` on that is not before `t`, or the number of points.
pub open spec fn landing(points: Seq<SpeedPoint>, t: int, i: int) -> int
    decreases points.len() - i,
{
    if i >= points.len() {
        points.len() as int
    } else if t <= points[i].t {
        i
    } else {
        landing(points, t, i + 1)
    }
}

/// The multiplier between two neighbouring points.
pub open spec fn between_points(a: SpeedPoint, b: SpeedPoint, t: int) -> int {
    if b.t - a.t <= RAMP_EPSILON {
        b.speed as int
    } else {
        number::between(a.speed as int, b.speed as int, t - a.t, b.t - a.t)
    }
}

/// The multiplier at a source time, holding flat outside the points.
pub open spec fn multiplier(points: Seq<SpeedPoint>, t: int) -> int {
    if points.len() == 0 {
        ONE as int
    } else if t <= points[0].t {
        points[0].speed as int
    } else if t >= points.last().t {
        points.last().speed as int
    } else {
        let i = landing(points, t, 1);
        between_points(points[i - 1], points[i], t)
    }
}

/// The points inside the trim, clear of its edges, where the curve is cut.
pub open spec fn inner_cuts(points: Seq<SpeedPoint>, in_point: int, out_point: int) -> Seq<i64>
    decreases points.len(),
{
    if points.len() == 0 {
        Seq::empty()
    } else {
        let before = inner_cuts(points.drop_last(), in_point, out_point);
        let t = points.last().t;
        if in_point + RAMP_EPSILON < t < out_point - RAMP_EPSILON {
            before.push(t)
        } else {
            before
        }
    }
}

/// Every place the curve is cut: the trim's two edges and what lies between.
pub open spec fn cuts(points: Seq<SpeedPoint>, in_point: i64, out_point: i64) -> Seq<i64> {
    seq![in_point] + inner_cuts(points, in_point as int, out_point as int) + seq![out_point]
}

/// The piece of the curve between two cuts.
pub open spec fn piece(points: Seq<SpeedPoint>, base: i64, in_point: i64, a: i64, b: i64) -> Segment {
    Segment {
        from: number::sat(a - in_point) as i64,
        to: number::sat(b - in_point) as i64,
        speed_from: number::scaled(base as int, multiplier(points, a as int)) as i64,
        speed_to: number::scaled(base as int, multiplier(points, b as int)) as i64,
    }
}

/// The pieces between the first `k` of the cuts; two cuts at the same instant make none.
pub open spec fn pieces(points: Seq<SpeedPoint>, base: i64, in_point: i64, at: Seq<i64>, k: int) -> Seq<
    Segment,
>
    decreases k,
{
    if k <= 1 {
        Seq::empty()
    } else {
        let before = pieces(points, base, in_point, at, k - 1);
        if at[k - 1] - at[k - 2] <= RAMP_EPSILON {
            before
        } else {
            before.push(piece(points, base, in_point, at[k - 2], at[k - 1]))
        }
    }
}

/// The curve cut into flat and sloped pieces across the trim, rebased so the first starts at
/// zero.
pub open spec fn segmented(points: Seq<SpeedPoint>, base: i64, in_point: i64, out_point: i64) -> Seq<
    Segment,
> {
    if base <= 0 || out_point - in_point <= RAMP_EPSILON {
        Seq::empty()
    } else {
        let at = cuts(points, in_point, out_point);
        pieces(points, base, in_point, at, at.len() as int)
    }
}

impl Segment {
    fn is_flat(&self) -> (r: bool)
        ensures
            r == flat(*self),
    {
        let change: i128 = self.speed_to as i128 - self.speed_from as i128;
        -1000 < change && change < 1000
    }
}

/// Whether the curve does anything. A curve of all 1s is the speed slider on its own.
pub fn has_ramp(points: &[SpeedPoint]) -> (r: bool)
    ensures
        r == ramped(points@),
{
    let mut i: usize = 0;
    while i < points.len()
        invariant
            i <= points.len(),
            forall|k: int| 0 <= k < i ==> !number::changes(#[trigger] points@[k].speed as int),
        decreases points.len() - i,
    {
        if is_change(points[i].speed) {
            proof {
                assert(number::changes(points@[i as int].speed as int));
            }
            return true;
        }
        i += 1;
    }
    false
}

/// The multiplier at a source time, holding flat outside the points.
pub fn multiplier_at(points: &[SpeedPoint], t: i64) -> (r: i64)
    ensures
        r == multiplier(points@, t as int),
{
    let n = points.len();
    if n == 0 {
        return ONE;
    }
    if t <= points[0].t {
        return points[0].speed;
    }
    if t >= points[n - 1].t {
        return points[n - 1].speed;
    }
    let mut i: usize = 1;
    while points[i].t < t
        invariant
            1 <= i < n,
            n == points.len(),
            points@[n - 1].t > t,
            points@[i - 1].t < t,
            landing(points@, t as int, 1) == landing(points@, t as int, i as int),
        decreases n - i,
    {
        i += 1;
    }
    let a = points[i - 1];
    let b = points[i];
    let span: i128 = b.t as i128 - a.t as i128;
    if span <= RAMP_EPSILON as i128 {
        return b.speed;
    }
    part_way(a.speed, b.speed, (t as i128 - a.t as i128) as u128, span as u128)
}

/// The curve cut into flat and sloped pieces across the trim, rebased so the first starts at
/// zero. Every calculation below walks these.
pub fn segments(points: &[SpeedPoint], base: i64, in_point: i64, out_point: i64) -> (r: Vec<Segment>)
    ensures
        r@ == segmented(points@, base, in_point, out_point),
{
    let mut out: Vec<Segment> = Vec::new();
    if base <= 0 || out_point as i128 - in_point as i128 <= RAMP_EPSILON as i128 {
        return out;
    }
    let mut at: Vec<i64> = vec![in_point];
    let mut i: usize = 0;
    proof {
        assert(at@ =~= seq![in_point] + inner_cuts(points@.take(0), in_point as int, out_point as int));
    }
    while i < points.len()
        invariant
            i <= points.len(),
            at@ == seq![in_point] + inner_cuts(
                points@.take(i as int),
                in_point as int,
                out_point as int,
            ),
        decreases points.len() - i,
    {
        let t = points[i].t;
        proof {
            assert(points@.take(i + 1).drop_last() =~= points@.take(i as int));
            assert(points@.take(i + 1).last() == points@[i as int]);
        }
        if t as i128 > in_point as i128 + RAMP_EPSILON as i128 && (t as i128) < out_point as i128
            - RAMP_EPSILON as i128 {
            at.push(t);
        }
        i += 1;
        proof {
            assert(at@ =~= seq![in_point] + inner_cuts(
                points@.take(i as int),
                in_point as int,
                out_point as int,
            ));
        }
    }
    at.push(out_point);
    proof {
        assert(points@.take(points.len() as int) =~= points@);
        assert(at@ =~= cuts(points@, in_point, out_point));
    }
    let mut k: usize = 1;
    while k < at.len()
        invariant
            1 <= k <= at.len(),
            out@ == pieces(points@, base, in_point, at@, k as int),
        decreases at.len() - k,
    {
        let a = at[k - 1];
        let b = at[k];
        if b as i128 - a as i128 > RAMP_EPSILON as i128 {
            out.push(
                Segment {
                    from: clamp64(a as i128 - in_point as i128),
                    to: clamp64(b as i128 - in_point as i128),
                    speed_from: scale_by(base, multiplier_at(points, a)),
                    speed_to: scale_by(base, multiplier_at(points, b)),
                },
            );
        }
        k += 1;
    }
    out
}

// --- Output time ---

/// The logarithm handed in for piece `i`.
pub open spec fn log_at(logs: Seq<i64>, i: int) -> int {
    if 0 <= i < logs.len() {
        logs[i] as int
    } else {
        0
    }
}

/// How long one piece lasts in the finished clip: a flat piece divides, a sloped one integrates
/// to a logarithm.
pub open spec fn lasts(s: Segment, log: int) -> int {
    let span = s.to - s.from;
    let rise = s.speed_to - s.speed_from;
    if span <= 0 || s.speed_from <= 0 || s.speed_to <= 0 {
        0
    } else if flat(s) {
        number::sat(number::nearest(span * ONE, s.speed_from as int))
    } else if rise > 0 {
        number::sat(number::nearest(span * log, rise * 1_000_000))
    } else {
        number::sat(number::nearest(-(span * log), -rise * 1_000_000))
    }
}

/// Where output time stands after the first `k` pieces.
pub open spec fn elapsed(segs: Seq<Segment>, logs: Seq<i64>, k: int) -> int
    decreases k,
{
    if k <= 0 {
        0
    } else {
        elapsed(segs, logs, k - 1) + lasts(segs[k - 1], log_at(logs, k - 1))
    }
}

/// The finished clip's length under a curve.
pub open spec fn length(segs: Seq<Segment>, logs: Seq<i64>) -> int {
    let sum = elapsed(segs, logs, segs.len() as int);
    if sum < 0 {
        0
    } else {
        number::sat(sum)
    }
}

fn log_for(logs: &[i64], i: usize) -> (r: i64)
    ensures
        r == log_at(logs@, i as int),
{
    if i < logs.len() {
        logs[i]
    } else {
        0
    }
}

/// How long one piece lasts in the finished clip. `log` is the natural logarithm of `speed_to /
/// speed_from`, in units of 10^-15.
pub fn segment_output(segment: &Segment, log: i64) -> (r: i64)
    ensures
        r == lasts(*segment, log as int),
{
    let span: i128 = segment.to as i128 - segment.from as i128;
    if span <= 0 || segment.speed_from <= 0 || segment.speed_to <= 0 {
        return 0;
    }
    if segment.is_flat() {
        return clamp64(div_round(span * 1_000_000_000, segment.speed_from as i128));
    }
    let rise: i128 = segment.speed_to as i128 - segment.speed_from as i128;
    proof {
        assert(-0x7fff_ffff_ffff_ffff_8000_0000_0000_0000 <= span * log
            <= 0x7fff_ffff_ffff_ffff_8000_0000_0000_0000) by (nonlinear_arith)
            requires
                0 < span <= 0xffff_ffff_ffff_ffff,
                -0x8000_0000_0000_0000 <= log <= 0x7fff_ffff_ffff_ffff,
        ;
    }
    let area: i128 = span * log as i128;
    if rise > 0 {
        clamp64(div_round(area, rise * 1_000_000))
    } else {
        clamp64(div_round(-area, -rise * 1_000_000))
    }
}

/// Where output time stands as each piece begins, and after the last.
fn offsets(segments: &[Segment], logs: &[i64]) -> (r: Vec<i128>)
    ensures
        r.len() == segments.len() + 1,
        forall|k: int| 0 <= k <= segments.len() ==> #[trigger] r@[k] == elapsed(segments@, logs@, k),
{
    let mut r: Vec<i128> = Vec::new();
    r.push(0);
    let mut sum: i128 = 0;
    let mut i: usize = 0;
    while i < segments.len()
        invariant
            i <= segments.len(),
            r.len() == i + 1,
            sum == elapsed(segments@, logs@, i as int),
            -0x8000_0000_0000_0000 * i <= sum <= 0x7fff_ffff_ffff_ffff * i,
            forall|k: int| 0 <= k <= i ==> #[trigger] r@[k] == elapsed(segments@, logs@, k),
        decreases segments.len() - i,
    {
        let next = segment_output(&segments[i], log_for(logs, i));
        sum = sum + next as i128;
        r.push(sum);
        i += 1;
    }
    r
}

/// The finished clip's length under the curve.
pub fn ramped_duration(
    points: &[SpeedPoint],
    base: i64,
    in_point: i64,
    out_point: i64,
    logs: &[i64],
) -> (r: i64)
    ensures
        r == length(segmented(points@, base, in_point, out_point), logs@),
{
    let segs = segments(points, base, in_point, out_point);
    let at = offsets(segs.as_slice(), logs);
    let sum: i128 = at[segs.len()];
    if sum < 0 {
        0
    } else {
        clamp64(sum)
    }
}

// --- The picture's timestamps ---

/// The slope of a piece, in speed per second.
pub open spec fn slope_text(rise: int, span: int) -> Seq<char> {
    if span > 0 {
        number::ratio_text(rise, span)
    } else if span < 0 {
        number::ratio_text(-rise, -span)
    } else if rise > 0 {
        "inf"@
    } else {
        "-inf"@
    }
}

/// One over the slope of a piece that has one.
pub open spec fn inverse_text(rise: int, span: int) -> Seq<char> {
    if rise > 0 {
        number::ratio_text(span, rise)
    } else if span == 0 {
        "-0.0"@
    } else {
        number::ratio_text(-span, -rise)
    }
}

/// One piece's contribution: where output time sits partway through it. On a slope the speed is
/// `s0 + k(T-from)`, so the integral of 1/speed is `ln(speed/s0)/k`.
pub open spec fn branch_text(s: Segment, offset: int) -> Seq<char> {
    let rise = s.speed_to - s.speed_from;
    let span = s.to - s.from;
    if flat(s) {
        number::num_text(offset) + "+(T-"@ + number::num_text(s.from as int) + ")/"@
            + number::num_text(s.speed_from as int)
    } else {
        number::num_text(offset) + "+"@ + inverse_text(rise, span) + "*log(("@ + number::num_text(
            s.speed_from as int,
        ) + "+"@ + slope_text(rise, span) + "*(T-"@ + number::num_text(s.from as int) + "))/"@
            + number::num_text(s.speed_from as int) + ")"@
    }
}

/// Output time as a function of the input timestamp `T`, from piece `i` on: a test for each
/// piece, and the last one's own slope for everything past it.
pub open spec fn nested(segs: Seq<Segment>, logs: Seq<i64>, i: int) -> Seq<char>
    decreases segs.len() - i,
{
    let own = branch_text(segs[i], number::sat(elapsed(segs, logs, i)));
    if i >= segs.len() - 1 {
        own
    } else {
        "if(lt(T,"@ + number::num_text(segs[i].to as int) + "),"@ + own + ","@ + nested(
            segs,
            logs,
            i + 1,
        ) + ")"@
    }
}

fn slope(rise: i128, span: i128) -> (r: String)
    requires
        -0x1_0000_0000_0000_0000 <= rise <= 0x1_0000_0000_0000_0000,
        -0x1_0000_0000_0000_0000 <= span <= 0x1_0000_0000_0000_0000,
    ensures
        r@ == slope_text(rise as int, span as int),
{
    if span > 0 {
        fmt_ratio(rise, span)
    } else if span < 0 {
        fmt_ratio(-rise, -span)
    } else if rise > 0 {
        "inf".to_string()
    } else {
        "-inf".to_string()
    }
}

fn inverse(rise: i128, span: i128) -> (r: String)
    requires
        rise != 0,
        -0x1_0000_0000_0000_0000 <= rise <= 0x1_0000_0000_0000_0000,
        -0x1_0000_0000_0000_0000 <= span <= 0x1_0000_0000_0000_0000,
    ensures
        r@ == inverse_text(rise as int, span as int),
{
    if rise > 0 {
        fmt_ratio(span, rise)
    } else if span == 0 {
        "-0.0".to_string()
    } else {
        fmt_ratio(-span, -rise)
    }
}

fn branch(segment: &Segment, offset: i64) -> (r: String)
    ensures
        r@ == branch_text(*segment, offset as int),
{
    let rise: i128 = segment.speed_to as i128 - segment.speed_from as i128;
    let span: i128 = segment.to as i128 - segment.from as i128;
    let mut out = fmt_num(offset);
    if segment.is_flat() {
        out.append("+(T-");
        out.append(fmt_num(segment.from).as_str());
        out.append(")/");
        out.append(fmt_num(segment.speed_from).as_str());
        return out;
    }
    out.append("+");
    out.append(inverse(rise, span).as_str());
    out.append("*log((");
    out.append(fmt_num(segment.speed_from).as_str());
    out.append("+");
    out.append(slope(rise, span).as_str());
    out.append("*(T-");
    out.append(fmt_num(segment.from).as_str());
    out.append("))/");
    out.append(fmt_num(segment.speed_from).as_str());
    out.append(")");
    out
}

/// The `setpts` value: output time as a function of `T`, the input timestamp in seconds. Nested
/// `if()`s, one per piece; the last piece is the final else, so a frame past the end extends its
/// slope rather than falling off.
pub fn setpts_expression(segments: &[Segment], logs: &[i64]) -> (r: Option<String>)
    ensures
        segments.len() == 0 <==> r is None,
        r matches Some(expr) ==> expr@ == nested(segments@, logs@, 0),
{
    let n = segments.len();
    if n == 0 {
        return None;
    }
    let at = offsets(segments, logs);
    let mut i: usize = n - 1;
    let mut expr = branch(&segments[i], clamp64(at[i]));
    while i > 0
        invariant
            n == segments.len(),
            i < n,
            at.len() == n + 1,
            forall|k: int| 0 <= k <= n ==> #[trigger] at@[k] == elapsed(segments@, logs@, k),
            expr@ == nested(segments@, logs@, i as int),
        decreases i,
    {
        i -= 1;
        let mut outer = "if(lt(T,".to_string();
        outer.append(fmt_num(segments[i].to).as_str());
        outer.append("),");
        outer.append(branch(&segments[i], clamp64(at[i])).as_str());
        outer.append(",");
        outer.append(expr.as_str());
        outer.append(")");
        expr = outer;
    }
    Some(expr)
}

// --- The sound's tempo ---

/// The slowest speed at either end of a piece.
pub open spec fn slowest(segs: Seq<Segment>) -> int
    decreases segs.len(),
{
    if segs.len() == 0 {
        i64::MAX as int
    } else {
        let before = slowest(segs.drop_last());
        let s = segs.last();
        let here = if s.speed_from < s.speed_to {
            s.speed_from as int
        } else {
            s.speed_to as int
        };
        if here < before {
            here
        } else {
            before
        }
    }
}

/// The fastest speed at either end of a piece, zero at least.
pub open spec fn fastest(segs: Seq<Segment>) -> int
    decreases segs.len(),
{
    if segs.len() == 0 {
        0
    } else {
        let before = fastest(segs.drop_last());
        let s = segs.last();
        let here = if s.speed_from > s.speed_to {
            s.speed_from as int
        } else {
            s.speed_to as int
        };
        if here > before {
            here
        } else {
            before
        }
    }
}

/// The speed at the middle of a step of a slope. Sampled there, the step's error against the true
/// curve cancels either side of it.
pub open spec fn middle_speed(s: Segment, t: int, end: int) -> int {
    number::between(s.speed_from as int, s.speed_to as int, t + end - 2 * s.from, 2 * (s.to - s.from))
}

/// The steps a slope is taken in from `t` on: when each begins, and the speed it holds.
pub open spec fn steps(s: Segment, t: int, step: int) -> Seq<(int, int)>
    decreases s.to - t,
{
    if step > 0 && t < s.to - 1 {
        let end = if t + step < s.to {
            t + step
        } else {
            s.to as int
        };
        seq![(t, middle_speed(s, t, end))] + steps(s, end, step)
    } else {
        Seq::empty()
    }
}

/// The tempo changes of the first `k` pieces: one for a flat piece, one a step for a slope.
pub open spec fn beats(segs: Seq<Segment>, step: int, k: int) -> Seq<(int, int)>
    decreases k,
{
    if k <= 0 {
        Seq::empty()
    } else {
        let s = segs[k - 1];
        beats(segs, step, k - 1) + (if flat(s) {
            seq![(s.from as int, s.speed_from as int)]
        } else {
            steps(s, s.from as int, step)
        })
    }
}

/// One tempo change as a command to the driven stage, which carries what is left over the
/// slowest speed.
pub open spec fn command(beat: (int, int), lo: int) -> Seq<char> {
    number::num_text(if beat.0 > 0 {
        beat.0
    } else {
        0
    }) + " atempo@ramp tempo "@ + number::ratio_text(beat.1, lo)
}

pub open spec fn commands(beats: Seq<(int, int)>, lo: int) -> Seq<Seq<char>> {
    beats.map_values(|b: (int, int)| command(b, lo))
}

/// The audio chain for a ramp, where `atempo` can follow it.
pub open spec fn sounded(segs: Seq<Segment>, step: int) -> Option<Seq<Seq<char>>> {
    let lo = slowest(segs);
    let hi = fastest(segs);
    let changes = beats(segs, step, segs.len() as int);
    if segs.len() == 0 || hi <= 0 || lo <= 0 || hi > MAX_AUDIO_SPAN * lo || changes.len() == 0 {
        None
    } else {
        Some(
            seq!["asendcmd=c='"@ + text::joined(commands(changes, lo), ";"@) + "'"@] + tempo::chain(lo)
                + seq!["atempo@ramp="@ + number::ratio_text(changes[0].1, lo)],
        )
    }
}

/// The slowest and fastest the clip actually runs.
pub fn speed_bounds(segments: &[Segment]) -> (r: Option<(i64, i64)>)
    ensures
        r is Some <==> segments.len() > 0 && fastest(segments@) > 0,
        r matches Some((lo, hi)) ==> lo == slowest(segments@) && hi == fastest(segments@),
{
    let mut lo: i64 = i64::MAX;
    let mut hi: i64 = 0;
    let mut i: usize = 0;
    while i < segments.len()
        invariant
            i <= segments.len(),
            lo == slowest(segments@.take(i as int)),
            hi == fastest(segments@.take(i as int)),
        decreases segments.len() - i,
    {
        let s = segments[i];
        proof {
            assert(segments@.take(i + 1).drop_last() =~= segments@.take(i as int));
            assert(segments@.take(i + 1).last() == s);
        }
        let (low, high) = if s.speed_from < s.speed_to {
            (s.speed_from, s.speed_to)
        } else {
            (s.speed_to, s.speed_from)
        };
        if low < lo {
            lo = low;
        }
        if high > hi {
            hi = high;
        }
        i += 1;
    }
    proof {
        assert(segments@.take(segments.len() as int) =~= segments@);
    }
    if segments.len() > 0 && hi > 0 {
        Some((lo, hi))
    } else {
        None
    }
}

/// A list of tempo changes as numbers of any size.
pub open spec fn as_beats(v: Seq<(i64, i64)>) -> Seq<(int, int)> {
    v.map_values(|b: (i64, i64)| (b.0 as int, b.1 as int))
}

fn push_steps(out: &mut Vec<(i64, i64)>, s: &Segment, step: i64)
    requires
        step > 0,
    ensures
        as_beats(final(out)@) == as_beats(old(out)@) + steps(*s, s.from as int, step as int),
{
    let mut t: i64 = s.from;
    while (t as i128) < s.to as i128 - 1
        invariant
            step > 0,
            s.from <= t,
            s.from < s.to ==> t <= s.to,
            as_beats(out@) + steps(*s, t as int, step as int) == as_beats(old(out)@) + steps(
                *s,
                s.from as int,
                step as int,
            ),
        decreases s.to - t,
    {
        let next: i128 = t as i128 + step as i128;
        let end: i64 = if next < s.to as i128 {
            next as i64
        } else {
            s.to
        };
        let x: i128 = t as i128 + end as i128 - 2 * s.from as i128;
        let d: i128 = 2 * (s.to as i128 - s.from as i128);
        let speed = part_way(s.speed_from, s.speed_to, x as u128, d as u128);
        let ghost before = out@;
        out.push((t, speed));
        proof {
            assert(as_beats(out@) =~= as_beats(before).push((t as int, speed as int)));
            assert(as_beats(out@) + steps(*s, end as int, step as int) =~= as_beats(before) + steps(
                *s,
                t as int,
                step as int,
            ));
        }
        t = end;
    }
    proof {
        assert(as_beats(out@) =~= as_beats(out@) + steps(*s, t as int, step as int));
    }
}

fn tempo_changes(segments: &[Segment], step: i64) -> (r: Vec<(i64, i64)>)
    requires
        step > 0,
    ensures
        as_beats(r@) == beats(segments@, step as int, segments.len() as int),
        r.len() == beats(segments@, step as int, segments.len() as int).len(),
{
    let mut r: Vec<(i64, i64)> = Vec::new();
    let mut i: usize = 0;
    proof {
        assert(as_beats(r@) =~= Seq::empty());
    }
    while i < segments.len()
        invariant
            step > 0,
            i <= segments.len(),
            as_beats(r@) == beats(segments@, step as int, i as int),
        decreases segments.len() - i,
    {
        let s = segments[i];
        let ghost before = r@;
        if s.is_flat() {
            r.push((s.from, s.speed_from));
            proof {
                assert(as_beats(r@) =~= as_beats(before) + seq![(s.from as int, s.speed_from as int)]);
            }
        } else {
            push_steps(&mut r, &s, step);
        }
        i += 1;
    }
    proof {
        assert(as_beats(r@).len() == r@.len());
    }
    r
}

fn tempo_commands(changes: &Vec<(i64, i64)>, lo: i64) -> (r: Vec<String>)
    requires
        lo > 0,
    ensures
        text::texts(r@) == commands(as_beats(changes@), lo as int),
{
    let mut r: Vec<String> = Vec::new();
    let mut i: usize = 0;
    proof {
        assert(text::texts(r@) =~= commands(as_beats(changes@), lo as int).take(0));
    }
    while i < changes.len()
        invariant
            lo > 0,
            i <= changes.len(),
            text::texts(r@) == commands(as_beats(changes@), lo as int).take(i as int),
        decreases changes.len() - i,
    {
        let (at, speed) = changes[i];
        let mut line = fmt_num(if at > 0 { at } else { 0 });
        line.append(" atempo@ramp tempo ");
        line.append(fmt_ratio(speed as i128, lo as i128).as_str());
        proof {
            assert(as_beats(changes@)[i as int] == (at as int, speed as int));
            assert(line@ == command((at as int, speed as int), lo as int));
        }
        r.push(line);
        i += 1;
        proof {
            assert(text::texts(r@) =~= commands(as_beats(changes@), lo as int).take(i as int));
        }
    }
    proof {
        assert(text::texts(r@) =~= commands(as_beats(changes@), lo as int));
    }
    r
}

/// The audio chain for a ramp: the tempo stepped through each slope, flat pieces left as one
/// command apiece.
///
/// The fixed stages carry the ramp's slowest speed and the driven stage carries what is left, so
/// the driven one starts at 1 and only ever climbs, which keeps it inside the single range atempo
/// accepts without the chain having to change shape partway through the clip.
pub fn audio_stages(segments: &[Segment], step: i64) -> (r: Option<Vec<String>>)
    requires
        step > 0,
    ensures
        r is Some <==> sounded(segments@, step as int) is Some,
        r matches Some(stages) ==> text::texts(stages@) == sounded(segments@, step as int)->0,
{
    let (lo, hi) = match speed_bounds(segments) {
        Some(bounds) => bounds,
        None => {
            return None;
        },
    };
    if lo <= 0 || hi as i128 > MAX_AUDIO_SPAN as i128 * lo as i128 {
        return None;
    }
    let changes = tempo_changes(segments, step);
    if changes.len() == 0 {
        return None;
    }
    let lines = tempo_commands(&changes, lo);
    let mut driver = "asendcmd=c='".to_string();
    driver.append(join(&lines, ";").as_str());
    driver.append("'");
    let mut initial = "atempo@ramp=".to_string();
    let first = changes[0].1;
    initial.append(fmt_ratio(first as i128, lo as i128).as_str());

    let mut stages: Vec<String> = vec![driver];
    let mut fixed = atempo_chain(lo);
    let ghost tail = text::texts(fixed@);
    stages.append(&mut fixed);
    stages.push(initial);
    proof {
        assert(as_beats(changes@)[0].1 == first);
        assert(text::texts(stages@) =~= seq![driver@] + tail + seq![initial@]);
    }
    Some(stages)
}

// --- What holds of every curve ---

/// Points in time order, no two of them at the same instant.
pub open spec fn in_order(points: Seq<SpeedPoint>) -> bool {
    forall|i: int, j: int|
        0 <= i < j < points.len() ==> (#[trigger] points[i]).t + RAMP_EPSILON < (#[trigger] points[j]).t
}

proof fn lemma_landing(points: Seq<SpeedPoint>, t: int, i: int)
    requires
        0 < i < points.len(),
        points[i - 1].t < t < points.last().t,
    ensures
        i <= landing(points, t, i) < points.len(),
        points[landing(points, t, i) - 1].t < t <= points[landing(points, t, i)].t,
    decreases points.len() - i,
{
    if points[i].t < t {
        lemma_landing(points, t, i + 1);
    }
}

/// The multiplier never leaves the range of the points' own.
pub proof fn law_multiplier_stays_in_range(points: Seq<SpeedPoint>, t: int, lo: int, hi: int)
    requires
        points.len() > 0,
        forall|i: int| 0 <= i < points.len() ==> lo <= (#[trigger] points[i]).speed <= hi,
    ensures
        lo <= multiplier(points, t) <= hi,
{
    assert(lo <= points[0].speed <= hi);
    assert(lo <= points[points.len() - 1].speed <= hi);
    if points[0].t < t && t < points.last().t {
        lemma_landing(points, t, 1);
        let i = landing(points, t, 1);
        let a = points[i - 1];
        let b = points[i];
        number::lemma_between(a.speed as int, b.speed as int, t - a.t, b.t - a.t);
    }
}

/// The multiplier at a point that is not squeezed against its neighbour is the point's own.
pub proof fn law_multiplier_meets_its_points(points: Seq<SpeedPoint>, i: int)
    requires
        in_order(points),
        0 <= i < points.len(),
    ensures
        multiplier(points, points[i].t as int) == points[i].speed,
{
    let t = points[i].t as int;
    if 0 < i && i < points.len() - 1 {
        lemma_landing_at(points, i, 1);
        let a = points[i - 1];
        let b = points[i];
        let rise = b.speed - a.speed;
        let d = b.t - a.t;
        lemma_nearest_whole(rise, d);
    }
}

proof fn lemma_landing_at(points: Seq<SpeedPoint>, i: int, from: int)
    requires
        in_order(points),
        0 <= from <= i < points.len(),
    ensures
        landing(points, points[i].t as int, from) == i,
    decreases i - from,
{
    if from < i {
        assert(points[from].t + RAMP_EPSILON < points[i].t);
        lemma_landing_at(points, i, from + 1);
    }
}

proof fn lemma_nearest_whole(n: int, d: int)
    requires
        d > 0,
    ensures
        number::nearest(n * d, d) == n,
{
    let size = number::abs(n);
    let m = size * d;
    assert(m == size * d + 0 && m >= 0) by (nonlinear_arith)
        requires
            m == size * d,
            size >= 0,
            d > 0,
    ;
    vstd::arithmetic::div_mod::lemma_fundamental_div_mod_converse(m, d, size, 0);
    number::lemma_nearest_parts(m, d);
    assert(n < 0 ==> n * d == -m) by (nonlinear_arith)
        requires
            m == size * d,
            n < 0 ==> size == -n,
    ;
    if n < 0 {
        assert(m > 0) by (nonlinear_arith)
            requires
                m == size * d,
                size > 0,
                d > 0,
        ;
    }
}

proof fn lemma_inner_cuts(points: Seq<SpeedPoint>, in_point: int, out_point: int)
    requires
        in_order(points),
    ensures
        ({
            let c = inner_cuts(points, in_point, out_point);
            &&& forall|i: int|
                0 <= i < c.len() ==> in_point + RAMP_EPSILON < #[trigger] c[i] < out_point - RAMP_EPSILON
            &&& forall|i: int, j: int|
                0 <= i < j < c.len() ==> (#[trigger] c[i]) + RAMP_EPSILON < #[trigger] c[j]
            &&& forall|i: int| 0 <= i < c.len() ==> is_point_time(points, #[trigger] c[i])
        }),
    decreases points.len(),
{
    if points.len() > 0 {
        let before = points.drop_last();
        assert forall|i: int, j: int| 0 <= i < j < before.len() implies (#[trigger] before[i]).t
            + RAMP_EPSILON < (#[trigger] before[j]).t by {
            assert(before[i] == points[i] && before[j] == points[j]);
        }
        lemma_inner_cuts(before, in_point, out_point);
        let b = inner_cuts(before, in_point, out_point);
        let c = inner_cuts(points, in_point, out_point);
        let last = points.last();
        assert forall|i: int| 0 <= i < b.len() implies (#[trigger] b[i]) + RAMP_EPSILON < last.t
            && is_point_time(points, b[i]) by {
            assert(is_point_time(before, b[i]));
            let q = choose|q: int| 0 <= q < before.len() && (#[trigger] before[q]).t == b[i];
            assert(points[q] == before[q]);
            assert(points[points.len() - 1] == last);
        }
        assert(points[points.len() - 1].t == last.t);
    }
}

/// A time that one of the points stands at.
spec fn is_point_time(points: Seq<SpeedPoint>, t: i64) -> bool {
    exists|q: int| 0 <= q < points.len() && (#[trigger] points[q]).t == t
}

proof fn lemma_pieces(points: Seq<SpeedPoint>, base: i64, in_point: i64, at: Seq<i64>, k: int)
    requires
        1 <= k <= at.len(),
        forall|i: int, j: int| 0 <= i < j < at.len() ==> (#[trigger] at[i]) + RAMP_EPSILON < #[trigger] at[j],
    ensures
        pieces(points, base, in_point, at, k).len() == k - 1,
        forall|i: int|
            0 <= i < k - 1 ==> #[trigger] pieces(points, base, in_point, at, k)[i] == piece(
                points,
                base,
                in_point,
                at[i],
                at[i + 1],
            ),
    decreases k,
{
    if k > 1 {
        lemma_pieces(points, base, in_point, at, k - 1);
        assert(at[k - 2] + RAMP_EPSILON < at[k - 1]);
    }
}

/// The pieces of a curve cover the trim from its beginning to its end, each beginning where the
/// one before it ends.
pub proof fn law_pieces_cover_the_trim(points: Seq<SpeedPoint>, base: i64, in_point: i64, out_point: i64)
    requires
        in_order(points),
        base > 0,
        RAMP_EPSILON < out_point - in_point <= i64::MAX,
    ensures
        ({
            let s = segmented(points, base, in_point, out_point);
            &&& s.len() > 0
            &&& s[0].from == 0
            &&& s.last().to == out_point - in_point
            &&& forall|i: int| 0 <= i < s.len() ==> (#[trigger] s[i]).from < s[i].to
            &&& forall|i: int, j: int|
                0 <= i && j == i + 1 && j < s.len() ==> (#[trigger] s[i]).to == (#[trigger] s[j]).from
                    && s[i].speed_to == s[j].speed_from
        }),
{
    lemma_inner_cuts(points, in_point as int, out_point as int);
    let c = inner_cuts(points, in_point as int, out_point as int);
    let at = cuts(points, in_point, out_point);
    assert forall|i: int, j: int| 0 <= i < j < at.len() implies (#[trigger] at[i]) + RAMP_EPSILON
        < #[trigger] at[j] && in_point <= at[i] <= out_point && in_point <= at[j] <= out_point by {
        if 0 < i && i <= c.len() {
            assert(at[i] == c[i - 1]);
        }
        if 0 < j && j <= c.len() {
            assert(at[j] == c[j - 1]);
        }
    }
    lemma_pieces(points, base, in_point, at, at.len() as int);
    let s = segmented(points, base, in_point, out_point);
    let n = at.len() as int;
    assert(s[0] == piece(points, base, in_point, at[0], at[1]));
    assert(s[n - 2] == piece(points, base, in_point, at[n - 2], at[n - 1]));
    assert forall|i: int| 0 <= i < s.len() implies (#[trigger] s[i]).from < s[i].to by {
        assert(s[i] == piece(points, base, in_point, at[i], at[i + 1]));
        assert(at[i] + RAMP_EPSILON < at[i + 1]);
    }
    assert forall|i: int, j: int| 0 <= i && j == i + 1 && j < s.len() implies (#[trigger] s[i]).to == (
    #[trigger] s[j]).from && s[i].speed_to == s[j].speed_from by {
        assert(s[i] == piece(points, base, in_point, at[i], at[i + 1]));
        assert(s[j] == piece(points, base, in_point, at[j], at[j + 1]));
    }
}

/// Without points, a curve divides the trim the way one speed does.
pub proof fn law_no_points_is_one_speed(base: i64, in_point: i64, out_point: i64, logs: Seq<i64>)
    requires
        base > 0,
        RAMP_EPSILON < out_point - in_point <= i64::MAX,
    ensures
        length(segmented(Seq::empty(), base, in_point, out_point), logs) == number::sat(
            number::nearest((out_point - in_point) * ONE, base as int),
        ),
{
    let none = Seq::<SpeedPoint>::empty();
    let s = segmented(none, base, in_point, out_point);
    let at = cuts(none, in_point, out_point);
    assert(at =~= seq![in_point, out_point]);
    reveal_with_fuel(pieces, 3);
    assert(s =~= seq![piece(none, base, in_point, in_point, out_point)]);
    lemma_nearest_whole(base as int, ONE as int);
    assert(base * ONE == base as int * (ONE as int));
    reveal_with_fuel(elapsed, 3);
    let n = (out_point - in_point) * ONE;
    number::lemma_nearest_parts(n, base as int);
}

/// Between two neighbouring points the multiplier moves evenly from the one's to the other's, to
/// the nearest billionth; before the first point and behind the last it holds.
pub proof fn law_multiplier_moves_evenly(points: Seq<SpeedPoint>, i: int, t: int)
    requires
        in_order(points),
        0 < i < points.len(),
        points[i - 1].t <= t <= points[i].t,
    ensures
        ({
            let (a, b) = (points[i - 1], points[i]);
            let (m, d) = (multiplier(points, t), b.t - a.t);
            -d <= 2 * ((m - a.speed) * d - (b.speed - a.speed) * (t - a.t)) <= d
        }),
        forall|early: int| early <= points[0].t ==> #[trigger] multiplier(points, early) == points[0].speed,
        forall|late: int|
            late >= points.last().t ==> #[trigger] multiplier(points, late) == points.last().speed,
{
    let (a, b) = (points[i - 1], points[i]);
    let (m, d, rise) = (multiplier(points, t), b.t - a.t, b.speed - a.speed);
    assert(a.t + RAMP_EPSILON < b.t);
    assert(points.last() == points[points.len() - 1]);
    assert(points.len() > 1 ==> points[0].t + RAMP_EPSILON < points[points.len() - 1].t);
    if t == a.t {
        law_multiplier_meets_its_points(points, i - 1);
        assert((m - a.speed) * d == 0 && rise * (t - a.t) == 0) by (nonlinear_arith)
            requires
                m == a.speed,
                t == a.t,
        ;
    } else if t == b.t {
        law_multiplier_meets_its_points(points, i);
        assert((m - a.speed) * d == rise * (t - a.t)) by (nonlinear_arith)
            requires
                m == b.speed,
                t == b.t,
                rise == b.speed - a.speed,
                d == b.t - a.t,
        ;
    } else {
        if i - 1 > 0 {
            assert(points[0].t + RAMP_EPSILON < points[i - 1].t);
        }
        if i < points.len() - 1 {
            assert(points[i].t + RAMP_EPSILON < points[points.len() - 1].t);
        }
        lemma_landing_between(points, i, t, 1);
        number::lemma_near(rise * (t - a.t), d);
    }
}

proof fn lemma_landing_between(points: Seq<SpeedPoint>, i: int, t: int, from: int)
    requires
        in_order(points),
        0 < from <= i < points.len(),
        points[i - 1].t < t <= points[i].t,
    ensures
        landing(points, t, from) == i,
    decreases i - from,
{
    if from < i {
        if from < i - 1 {
            assert(points[from].t + RAMP_EPSILON < points[i - 1].t);
        }
        lemma_landing_between(points, i, t, from + 1);
    }
}

/// A speed that is as far from the product of `base` and the multiplier at a source time as
/// rounding takes it.
pub open spec fn speed_of_the_curve(points: Seq<SpeedPoint>, base: int, t: int, speed: int) -> bool {
    let product = base * multiplier(points, t);
    0 <= product <= i64::MAX ==> -ONE <= 2 * (speed * ONE - product) <= ONE
}

/// Every piece of a curve has, at its beginning and at its end, the job's speed times the
/// multiplier there.
pub proof fn law_pieces_have_the_curves_speed(
    points: Seq<SpeedPoint>,
    base: i64,
    in_point: i64,
    out_point: i64,
    i: int,
)
    requires
        in_order(points),
        base > 0,
        RAMP_EPSILON < out_point - in_point <= i64::MAX,
        0 <= i < segmented(points, base, in_point, out_point).len(),
    ensures
        ({
            let s = segmented(points, base, in_point, out_point)[i];
            &&& speed_of_the_curve(points, base as int, in_point + s.from, s.speed_from as int)
            &&& speed_of_the_curve(points, base as int, in_point + s.to, s.speed_to as int)
        }),
{
    let c = inner_cuts(points, in_point as int, out_point as int);
    let at = cuts(points, in_point, out_point);
    lemma_inner_cuts(points, in_point as int, out_point as int);
    assert forall|p: int, q: int| 0 <= p < q < at.len() implies (#[trigger] at[p]) + RAMP_EPSILON
        < #[trigger] at[q] && in_point <= at[p] <= out_point && in_point <= at[q] <= out_point by {
        if 0 < p && p <= c.len() {
            assert(at[p] == c[p - 1]);
        }
        if 0 < q && q <= c.len() {
            assert(at[q] == c[q - 1]);
        }
    }
    lemma_pieces(points, base, in_point, at, at.len() as int);
    let s = segmented(points, base, in_point, out_point)[i];
    assert(s == piece(points, base, in_point, at[i], at[i + 1]));
    assert(at[i] + RAMP_EPSILON < at[i + 1]);
    lemma_scaled_near(base as int, multiplier(points, at[i] as int));
    lemma_scaled_near(base as int, multiplier(points, at[i + 1] as int));
}

proof fn lemma_scaled_near(a: int, b: int)
    ensures
        0 <= a * b <= i64::MAX ==> -ONE <= 2 * (number::scaled(a, b) * ONE - a * b) <= ONE && 0
            <= number::scaled(a, b) <= i64::MAX,
{
    number::lemma_near(a * b, ONE as int);
}

} // verus!
