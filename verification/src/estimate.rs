//! How large a finished file will be.
//!
//! Where the job names a rate, an explicit bitrate or a size target, the answer is arithmetic and
//! close to exact. The constant-quality presets can only be estimated, so the result is the order
//! of magnitude it is.

use vstd::prelude::*;

use crate::frame;
use crate::frame::{cropped_size, gif_caps, scale_step};
use crate::job;
use crate::job::{output_duration, source_duration, turned_size, ExportFormat, ExportJob, QualityPreset};
use crate::number;
use crate::number::share;
use crate::ramp;
use crate::rates;
use crate::rates::{audio_only_kbps, fit_video_kbps, video_kbps_for, video_path_audio_kbps};

verus! {

// --- The model ---

/// Thousandths of a bit that one pixel takes at constant quality.
pub open spec fn pixel_cost(format: ExportFormat, quality: QualityPreset) -> int {
    if format is Webm {
        rates::by_preset(quality, 100, 70, 50)
    } else {
        rates::by_preset(quality, 100, 65, 35)
    }
}

/// The nearest whole number of bytes to `n / d`, as far as 64 bits hold it.
pub open spec fn bytes(n: int, d: int) -> int {
    let whole = number::nearest(n, d);
    if whole > u64::MAX {
        u64::MAX as int
    } else {
        whole
    }
}

/// A pixel's cost, over the picture, its frames and the source's length, in units of 10^-21 bits.
pub open spec fn picture_bits(cost: int, w: int, h: int, fps: int, length: int) -> int {
    cost * w * h * fps * length
}

pub open spec fn lossless_bytes(job: ExportJob, w: int, h: int, fps: int, keep_audio: bool) -> int {
    let source = job::source_length(job);
    bytes(
        picture_bits(100, w, h, fps, source) + (if keep_audio {
            128_000 * source * 1_000_000_000_000
        } else {
            0
        }),
        8_000_000_000_000_000_000_000,
    )
}

/// What a rate makes of a length.
pub open spec fn rate_bytes(kbps: int, length: int) -> int {
    bytes(kbps * length, 8_000_000)
}

/// A gif has no interframe compression worth the name: 0.35 bytes a pixel of every frame that its
/// frame rate cap lets through.
pub open spec fn gif_bytes(job: ExportJob, w: int, h: int, fps: int, length: int) -> int {
    let (fps_cap, width_cap) = frame::gif_limits(job.quality);
    let narrow = if w < width_cap {
        w
    } else {
        width_cap
    };
    let tall = frame::follows(h, narrow, w);
    let source = job::source_length(job);
    if fps * source <= fps_cap * 1_000_000_000 * length {
        bytes(35 * narrow * tall * fps * source, 100_000_000_000_000_000_000)
    } else {
        bytes(
            35 * narrow * tall * (fps_cap * 1_000_000_000) * length,
            100_000_000_000_000_000_000,
        )
    }
}

pub open spec fn video_bytes(
    job: ExportJob,
    w: int,
    h: int,
    fps: int,
    keep_audio: bool,
    length: int,
    logs: Seq<i64>,
) -> int {
    let sound = if keep_audio {
        rates::side_rate(job)
    } else {
        0
    };
    match rates::picture_rate(job, keep_audio, logs) {
        Some(kbps) => rate_bytes(kbps + sound, length),
        None => {
            let scale = frame::scaling(job, w, h, fps, rates::fit_picture(job, keep_audio, logs));
            bytes(
                picture_bits(
                    pixel_cost(job.format, job.quality),
                    scale.width,
                    scale.height,
                    fps,
                    job::source_length(job),
                ) + sound * length * 1_000_000_000_000_000,
                8_000_000_000_000_000_000_000,
            )
        },
    }
}

/// The size of a job's file. A stream copy keeps the source's own rate, which is not known here,
/// so the high-quality figure is the closest guess.
pub open spec fn estimated(
    job: ExportJob,
    width: i64,
    height: i64,
    fps: int,
    has_audio: bool,
    logs: Seq<i64>,
) -> int {
    let length = job::output_length(job, logs);
    let rate = frame::rate_or_30(fps);
    let keep_audio = has_audio && !job.mute;
    let (tw, th) = job::turned(job, width, height);
    let (w, h) = frame::after_crop(job, tw, th);
    if length <= 0 || width < 2 || height < 2 {
        0
    } else if job.lossless {
        lossless_bytes(job, width as int, height as int, rate, keep_audio)
    } else if job.format.audio() {
        if has_audio {
            rate_bytes(rates::sound_rate(job, logs), length)
        } else {
            0
        }
    } else if job.format is Gif {
        gif_bytes(job, w as int, h as int, rate, length)
    } else {
        video_bytes(job, w as int, h as int, rate, keep_audio, length, logs)
    }
}

// --- Products too large for one machine word ---

/// A product of any size by its quotient and remainder under a fixed divisor. A quotient past 64
/// bits is as good as any other.
struct Product {
    whole: u128,
    rest: u128,
}

spec fn limit() -> int {
    0x1_0000_0000_0000_0000
}

impl Product {
    spec fn is(self, n: int, d: int) -> bool {
        &&& n >= 0
        &&& self.whole <= limit()
        &&& self.rest < d
        &&& self.whole < limit() ==> n == self.whole * d + self.rest
        &&& self.whole == limit() ==> n >= limit() * d
    }

    fn one(d: u128) -> (r: Product)
        requires
            1 < d,
        ensures
            r.is(1, d as int),
    {
        Product { whole: 0, rest: 1 }
    }

    fn times(self, f: u64, d: u128, Ghost(n): Ghost<int>) -> (r: Product)
        requires
            self.is(n, d as int),
            1 < d <= 8_000_000_000_000_000_000_000,
        ensures
            r.is(n * f, d as int),
    {
        if f == 0 {
            proof {
                assert(n * 0 == 0);
                assert(0 * d == 0) by (nonlinear_arith);
            }
            return Product { whole: 0, rest: 0 };
        }
        let (carry, rest) = share(f, self.rest, d);
        proof {
            assert(self.whole * f <= limit() * f) by (nonlinear_arith)
                requires
                    self.whole <= limit(),
                    f >= 0,
            ;
        }
        let whole: u128 = self.whole * f as u128 + carry;
        proof {
            let w = self.whole as int;
            let left = self.rest as int;
            if w < limit() {
                assert(n * f == whole * d + rest) by (nonlinear_arith)
                    requires
                        n == w * d + left,
                        f * left == carry * d + rest,
                        whole == w * f + carry,
                ;
                if whole >= limit() {
                    assert(n * f >= limit() * d) by (nonlinear_arith)
                        requires
                            n * f == whole * d + rest,
                            whole >= limit(),
                            d > 0,
                            rest >= 0,
                    ;
                }
            } else {
                assert(whole >= limit()) by (nonlinear_arith)
                    requires
                        whole == w * f + carry,
                        w == limit(),
                        f >= 1,
                        carry >= 0,
                ;
                assert(limit() * d > 0) by (nonlinear_arith)
                    requires
                        d > 0,
                        limit() > 0,
                ;
                assert(n * f >= limit() * d) by (nonlinear_arith)
                    requires
                        n >= limit() * d,
                        limit() * d > 0,
                        f >= 1,
                ;
            }
        }
        Product {
            whole: if whole >= 0x1_0000_0000_0000_0000 {
                0x1_0000_0000_0000_0000
            } else {
                whole
            },
            rest,
        }
    }

    fn plus(self, other: Product, d: u128, Ghost(n): Ghost<int>, Ghost(m): Ghost<int>) -> (r: Product)
        requires
            self.is(n, d as int),
            other.is(m, d as int),
            1 < d <= 8_000_000_000_000_000_000_000,
        ensures
            r.is(n + m, d as int),
    {
        let mut whole: u128 = self.whole + other.whole;
        let mut rest: u128 = self.rest + other.rest;
        if rest >= d {
            rest = rest - d;
            whole = whole + 1;
        }
        proof {
            let a = self.whole as int;
            let b = other.whole as int;
            if a < limit() && b < limit() {
                assert(n + m == whole * d + rest) by (nonlinear_arith)
                    requires
                        n == a * d + self.rest,
                        m == b * d + other.rest,
                        (whole == a + b && rest == self.rest + other.rest) || (whole == a + b + 1 && rest
                            == self.rest + other.rest - d),
                ;
                if whole >= limit() {
                    assert(n + m >= limit() * d) by (nonlinear_arith)
                        requires
                            n + m == whole * d + rest,
                            whole >= limit(),
                            d > 0,
                            rest >= 0,
                    ;
                }
            }
        }
        Product {
            whole: if whole >= 0x1_0000_0000_0000_0000 {
                0x1_0000_0000_0000_0000
            } else {
                whole
            },
            rest,
        }
    }

    fn rounded(self, d: u128, Ghost(n): Ghost<int>) -> (r: u64)
        requires
            self.is(n, d as int),
            1 < d <= 8_000_000_000_000_000_000_000,
        ensures
            r == bytes(n, d as int),
    {
        let up: u128 = if self.rest >= d - self.rest {
            self.whole + 1
        } else {
            self.whole
        };
        proof {
            number::lemma_nearest_parts(n, d as int);
            vstd::arithmetic::div_mod::lemma_fundamental_div_mod(n, d as int);
            if self.whole < limit() {
                vstd::arithmetic::div_mod::lemma_fundamental_div_mod_converse(
                    n,
                    d as int,
                    self.whole as int,
                    self.rest as int,
                );
            } else {
                assert(n / d as int >= limit()) by (nonlinear_arith)
                    requires
                        n >= limit() * d,
                        d > 0,
                        n == d * (n / d as int) + n % d as int,
                        n % (d as int) < d,
                ;
            }
        }
        if up > 0xffff_ffff_ffff_ffff {
            u64::MAX
        } else {
            up as u64
        }
    }
}

fn product5(a: u64, b: u64, c: u64, e: u64, f: u64, d: u128) -> (r: Product)
    requires
        1 < d <= 8_000_000_000_000_000_000_000,
    ensures
        r.is(a * b * c * e * f, d as int),
{
    let one = Product::one(d);
    let p1 = one.times(a, d, Ghost(1));
    let p2 = p1.times(b, d, Ghost(1 * a));
    let p3 = p2.times(c, d, Ghost(1 * a * b));
    let p4 = p3.times(e, d, Ghost(1 * a * b * c));
    let p5 = p4.times(f, d, Ghost(1 * a * b * c * e));
    proof {
        assert(1 * a == a);
    }
    p5
}

// --- The estimate ---

fn bits_per_pixel(format: ExportFormat, quality: QualityPreset) -> (r: u64)
    ensures
        r == pixel_cost(format, quality),
        quality is High ==> r == 100,
        quality is Balanced ==> r == (if format is Webm { 70int } else { 65int }),
        quality is Small ==> r == (if format is Webm { 50int } else { 35int }),
{
    let (high, middle, small): (u64, u64, u64) = if format == ExportFormat::Webm {
        (100, 70, 50)
    } else {
        (100, 65, 35)
    };
    match quality {
        QualityPreset::High => high,
        QualityPreset::Small => small,
        _ => middle,
    }
}

/// What a rate makes of a length, in bytes.
fn bytes_from_kbps(kbps: u64, length: u64) -> (r: u64)
    ensures
        r == rate_bytes(kbps as int, length as int),
{
    let d: u128 = 8_000_000;
    let p = product5(kbps, length, 1, 1, 1, d);
    let ghost n = kbps * length * 1 * 1 * 1;
    proof {
        assert(n == kbps * length) by (nonlinear_arith)
            requires
                n == kbps * length * 1 * 1 * 1,
        ;
    }
    p.rounded(d, Ghost(n))
}

fn lossless_size(job: &ExportJob, width: i64, height: i64, fps: i64, keep_audio: bool) -> (r: u64)
    requires
        width >= 2,
        height >= 2,
        fps > 0,
    ensures
        r == lossless_bytes(*job, width as int, height as int, fps as int, keep_audio),
{
    let d: u128 = 8_000_000_000_000_000_000_000;
    let source = source_duration(job) as u64;
    let picture = product5(100, width as u64, height as u64, fps as u64, source, d);
    let ghost n = 100 * width * height * fps * source;
    if keep_audio {
        let sound = product5(128_000, source, 1_000_000_000_000, 1, 1, d);
        let ghost m = 128_000 * source * 1_000_000_000_000 * 1 * 1;
        return picture.plus(sound, d, Ghost(n), Ghost(m)).rounded(d, Ghost(n + m));
    }
    picture.rounded(d, Ghost(n))
}

fn gif_size(job: &ExportJob, w: i64, h: i64, fps: i64, length: i64) -> (r: u64)
    requires
        w >= 2,
        h >= 2,
        fps > 0,
        length > 0,
    ensures
        r == gif_bytes(*job, w as int, h as int, fps as int, length as int),
{
    let d: u128 = 100_000_000_000_000_000_000;
    let (fps_cap, width_cap) = gif_caps(job.quality);
    let narrow: i64 = if w < width_cap {
        w
    } else {
        width_cap
    };
    let tall = frame::follow(h, narrow, w) as u64;
    let source = source_duration(job) as u64;
    proof {
        assert(fps * source <= 0x4000_0000_0000_0000_0000_0000_0000_0000) by (nonlinear_arith)
            requires
                0 <= fps <= i64::MAX,
                0 <= source <= i64::MAX,
        ;
    }
    let most: u64 = fps_cap as u64 * 1_000_000_000;
    proof {
        assert(most * length <= 20_000_000_000 * length) by (nonlinear_arith)
            requires
                most <= 20_000_000_000,
                length > 0,
        ;
    }
    if fps as u128 * source as u128 <= most as u128 * length as u128 {
        let ghost n = 35 * narrow * tall * fps * source;
        product5(35, narrow as u64, tall, fps as u64, source, d).rounded(d, Ghost(n))
    } else {
        let ghost n = 35 * narrow * tall * most * length;
        product5(35, narrow as u64, tall, most, length as u64, d).rounded(d, Ghost(n))
    }
}

fn video_size(
    job: &ExportJob,
    w: i64,
    h: i64,
    fps: i64,
    keep_audio: bool,
    length: i64,
    logs: &[i64],
) -> (r: u64)
    requires
        w >= 2,
        h >= 2,
        fps > 0,
        length > 0,
    ensures
        r == video_bytes(*job, w as int, h as int, fps as int, keep_audio, length as int, logs@),
{
    let sound: u64 = if keep_audio {
        video_path_audio_kbps(job) as u64
    } else {
        0
    };
    if let Some(kbps) = video_kbps_for(job, keep_audio, logs) {
        return bytes_from_kbps(kbps as u64 + sound, length as u64);
    }
    let fit = fit_video_kbps(job, keep_audio, logs);
    let scale = scale_step(job, w, h, fps, fit);
    proof {
        assert(frame::wide(fit) == rates::fit_picture(*job, keep_audio, logs@));
        frame::lemma_scaled_positive(*job, w, h, fps as int, frame::wide(fit));
    }
    let d: u128 = 8_000_000_000_000_000_000_000;
    let cost = bits_per_pixel(job.format, job.quality);
    let source = source_duration(job) as u64;
    let picture = product5(cost, scale.width as u64, scale.height as u64, fps as u64, source, d);
    let ghost n = cost * scale.width * scale.height * fps * source;
    let beside = product5(sound, length as u64, 1_000_000_000_000_000, 1, 1, d);
    let ghost m = sound * length * 1_000_000_000_000_000 * 1 * 1;
    picture.plus(beside, d, Ghost(n), Ghost(m)).rounded(d, Ghost(n + m))
}

/// The size of a job's file in bytes. `logs` belongs to the pieces of the job's curve.
pub fn estimate_output_bytes(
    job: &ExportJob,
    width: i64,
    height: i64,
    fps: i64,
    has_audio: bool,
    logs: &[i64],
) -> (r: u64)
    ensures
        r == estimated(*job, width, height, fps as int, has_audio, logs@),
{
    let length = output_duration(job, logs);
    let rate: i64 = if fps > 0 {
        fps
    } else {
        30_000_000_000
    };
    let keep_audio = has_audio && !job.mute;
    if length <= 0 || width < 2 || height < 2 {
        return 0;
    }
    if job.lossless {
        return lossless_size(job, width, height, rate, keep_audio);
    }
    if job.format.is_audio() {
        if !has_audio {
            return 0;
        }
        let kbps = audio_only_kbps(job, logs);
        return bytes_from_kbps(kbps as u64, length as u64);
    }
    let (tw, th) = turned_size(job, width, height);
    let (w, h) = cropped_size(job, tw, th);
    if job.format == ExportFormat::Gif {
        return gif_size(job, w, h, rate, length);
    }
    video_size(job, w, h, rate, keep_audio, length, logs)
}

/// The estimator by value: the frame size and rate come from what a probe already said.
pub fn estimate_export_size(
    job: ExportJob,
    width: i64,
    height: i64,
    fps: i64,
    has_audio: bool,
    logs: &[i64],
) -> (r: u64)
    ensures
        r == estimated(job, width, height, fps as int, has_audio, logs@),
{
    estimate_output_bytes(&job, width, height, fps, has_audio, logs)
}

/// A rate that is held to 93% of a budget, to the rounding of one kilobit a second, makes a file
/// within the budget.
proof fn lemma_within_budget(kbps: int, length: int, bytes: int)
    requires
        kbps > 32,
        length > 0,
        bytes >= 9,
        2 * kbps * length <= 2 * (bytes * 7_440_000) + length,
    ensures
        rate_bytes(kbps, length) <= bytes,
{
    let n = kbps * length;
    assert(n >= 33 * length && n >= 0 && 2 * kbps * length == 2 * n) by (nonlinear_arith)
        requires
            n == kbps * length,
            kbps > 32,
            length > 0,
    ;
    number::lemma_nearest_parts(n, 8_000_000);
}

/// A size target's own rate, where it is not down at its floor, makes a file that is estimated at
/// no more than the target.
pub proof fn law_a_target_is_not_overshot(
    job: ExportJob,
    width: i64,
    height: i64,
    fps: int,
    has_audio: bool,
    logs: Seq<i64>,
)
    requires
        job.quality is Fit,
        job.target_mb matches Some(mb) && mb >= 500_000_000,
        !job.lossless,
        !(job.format is Gif || job.format is Wav || job.format is Flac),
        job.format.audio() ==> (rates::fit_sound(job, logs) matches Some(kbps) ==> kbps > 32),
        !job.format.audio() ==> (rates::fit_picture(job, has_audio && !job.mute, logs) matches Some(
            kbps,
        ) ==> kbps > 100),
    ensures
        estimated(job, width, height, fps, has_audio, logs) <= rates::budget(job)->0,
{
    let length = job::output_length(job, logs);
    let keep_audio = has_audio && !job.mute;
    let all = rates::budget(job)->0;
    number::lemma_nearest_parts(job.target_mb->0 as int, 1000);
    if length > 0 && width >= 2 && height >= 2 {
        if !job.format.audio() {
            rates::law_fit_keeps_to_the_budget(job, keep_audio, logs);
            let sound = if keep_audio {
                rates::side_rate(job)
            } else {
                0
            };
            lemma_within_budget(rates::fit_picture(job, keep_audio, logs)->0 + sound, length, all);
        } else {
            let kbps = rates::fit_sound(job, logs)->0;
            let n = all * 7_440_000;
            number::lemma_nearest_parts(n, length);
            vstd::arithmetic::div_mod::lemma_fundamental_div_mod(n, length);
            let q = n / length;
            let rest = n % length;
            assert(2 * kbps * length <= 2 * n + length) by (nonlinear_arith)
                requires
                    n == length * q + rest,
                    0 <= rest < length,
                    kbps <= q + (if 2 * rest >= length {
                        1int
                    } else {
                        0int
                    }),
                    length > 0,
            ;
            lemma_within_budget(kbps, length, all);
        }
    }
}

// --- What holds of every estimate ---

proof fn lemma_more_bytes(a: int, b: int, d: int)
    requires
        a <= b,
        d > 0,
    ensures
        bytes(a, d) <= bytes(b, d),
{
    number::lemma_nearest_keeps_order(a, b, d);
}

proof fn lemma_bytes_near(n: int, d: int)
    requires
        n >= 0,
        d > 0,
    ensures
        bytes(n, d) < u64::MAX ==> -d <= 2 * (bytes(n, d) * d - n) <= d,
{
    number::lemma_near(n, d);
}

/// Two presets, the first at least as good as the second.
pub open spec fn no_worse(a: QualityPreset, b: QualityPreset) -> bool {
    ||| a is High && (b is High || b is Balanced || b is Small)
    ||| a is Balanced && (b is Balanced || b is Small)
    ||| a is Small && b is Small
}

proof fn lemma_more_picture(a: int, b: int, w: int, h: int, fps: int, length: int)
    requires
        0 <= a <= b,
        w >= 0,
        h >= 0,
        fps >= 0,
        length >= 0,
    ensures
        0 <= picture_bits(a, w, h, fps, length) <= picture_bits(b, w, h, fps, length),
{
    let p = w * h * fps * length;
    assert(w * h >= 0) by (nonlinear_arith)
        requires
            w >= 0,
            h >= 0,
    ;
    let q = w * h;
    assert(q * fps >= 0) by (nonlinear_arith)
        requires
            q >= 0,
            fps >= 0,
    ;
    let r = q * fps;
    assert(p >= 0) by (nonlinear_arith)
        requires
            p == r * length,
            r >= 0,
            length >= 0,
    ;
    assert(a * w * h * fps * length == a * p && b * w * h * fps * length == b * p) by (nonlinear_arith)
        requires
            p == w * h * fps * length,
    ;
    assert(0 <= a * p <= b * p) by (nonlinear_arith)
        requires
            0 <= a <= b,
            p >= 0,
    ;
}

proof fn lemma_more_rate(a: int, b: int, length: int)
    requires
        a <= b,
        length >= 0,
    ensures
        rate_bytes(a, length) <= rate_bytes(b, length),
{
    assert(a * length <= b * length) by (nonlinear_arith)
        requires
            a <= b,
            length >= 0,
    ;
    lemma_more_bytes(a * length, b * length, 8_000_000);
}

proof fn lemma_more_gif(a: ExportJob, b: ExportJob, w: int, h: int, fps: int, length: int)
    requires
        a == (ExportJob { quality: a.quality, ..b }),
        no_worse(a.quality, b.quality),
        2 <= w,
        2 <= h <= i64::MAX,
        fps > 0,
        length > 0,
    ensures
        gif_bytes(b, w, h, fps, length) <= gif_bytes(a, w, h, fps, length),
{
    let (ca, wa) = frame::gif_limits(a.quality);
    let (cb, wb) = frame::gif_limits(b.quality);
    let na = if w < wa {
        w
    } else {
        wa
    };
    let nb = if w < wb {
        w
    } else {
        wb
    };
    let (ta, tb) = (frame::follows(h, na, w), frame::follows(h, nb, w));
    assert(h * nb <= h * na) by (nonlinear_arith)
        requires
            nb <= na,
            h >= 0,
    ;
    number::lemma_nearest_keeps_order(h * nb, h * na, w);
    assert(0 <= tb <= ta);
    let source = job::source_length(a);
    let full = fps * source;
    let (ma, mb) = (ca * 1_000_000_000 * length, cb * 1_000_000_000 * length);
    assert(0 <= mb <= ma && full >= 0) by (nonlinear_arith)
        requires
            ma == ca * 1_000_000_000 * length,
            mb == cb * 1_000_000_000 * length,
            0 <= cb <= ca,
            length > 0,
            full == fps * source,
            fps > 0,
            source >= 0,
    ;
    let fa = if full <= ma {
        full
    } else {
        ma
    };
    let fb = if full <= mb {
        full
    } else {
        mb
    };
    let (pa, pb) = (na * ta, nb * tb);
    assert(0 <= pb <= pa) by (nonlinear_arith)
        requires
            0 <= nb <= na,
            0 <= tb <= ta,
            pa == na * ta,
            pb == nb * tb,
    ;
    assert(35 * (pb * fb) <= 35 * (pa * fa)) by (nonlinear_arith)
        requires
            0 <= pb <= pa,
            0 <= fb <= fa,
    ;
    assert(35 * na * ta * fps * source == 35 * (pa * full) && 35 * nb * tb * fps * source == 35 * (pb * full))
        by (nonlinear_arith)
        requires
            pa == na * ta,
            pb == nb * tb,
            full == fps * source,
    ;
    assert(35 * na * ta * (ca * 1_000_000_000) * length == 35 * (pa * ma) && 35 * nb * tb * (cb
        * 1_000_000_000) * length == 35 * (pb * mb)) by (nonlinear_arith)
        requires
            pa == na * ta,
            pb == nb * tb,
            ma == ca * 1_000_000_000 * length,
            mb == cb * 1_000_000_000 * length,
    ;
    lemma_more_bytes(35 * (pb * fb), 35 * (pa * fa), 100_000_000_000_000_000_000);
}

/// A better preset is never estimated smaller: of two jobs that differ in nothing but that, the
/// better is at least as large, whatever the format.
pub proof fn law_better_is_never_smaller(
    better: ExportJob,
    worse: ExportJob,
    width: i64,
    height: i64,
    fps: int,
    has_audio: bool,
    logs: Seq<i64>,
)
    requires
        better == (ExportJob { quality: better.quality, ..worse }),
        no_worse(better.quality, worse.quality),
    ensures
        estimated(worse, width, height, fps, has_audio, logs) <= estimated(
            better,
            width,
            height,
            fps,
            has_audio,
            logs,
        ),
{
    let (a, b) = (better, worse);
    let length = job::output_length(a, logs);
    let rate = frame::rate_or_30(fps);
    let keep = has_audio && !a.mute;
    assert(job::output_length(b, logs) == length);
    assert(job::source_length(b) == job::source_length(a));
    assert(rates::budget(a) is None && rates::budget(b) is None);
    let (tw, th) = job::turned(a, width, height);
    let (w, h) = frame::after_crop(a, tw, th);
    if length > 0 && width >= 2 && height >= 2 && !a.lossless {
        if let Some(r) = a.crop {
            frame::law_crop_is_even_and_inside(r, tw, th);
        }
        if a.format.audio() {
            lemma_more_rate(rates::sound_rate(b, logs), rates::sound_rate(a, logs), length);
        } else if a.format is Gif {
            lemma_more_gif(a, b, w as int, h as int, rate, length);
        } else {
            lemma_more_video(a, b, w, h, rate, keep, length, logs);
        }
    }
}

proof fn lemma_more_video(
    a: ExportJob,
    b: ExportJob,
    w: i64,
    h: i64,
    fps: int,
    keep: bool,
    length: int,
    logs: Seq<i64>,
)
    requires
        a == (ExportJob { quality: a.quality, ..b }),
        no_worse(a.quality, b.quality),
        w >= 2,
        h >= 2,
        fps > 0,
        length > 0,
    ensures
        video_bytes(b, w as int, h as int, fps, keep, length, logs) <= video_bytes(
            a,
            w as int,
            h as int,
            fps,
            keep,
            length,
            logs,
        ),
{
    let (sa, sb) = if keep {
        (rates::side_rate(a), rates::side_rate(b))
    } else {
        (0, 0)
    };
    assert(rates::fit_picture(a, keep, logs) is None && rates::fit_picture(b, keep, logs) is None);
    match rates::picture_rate(a, keep, logs) {
        Some(kbps) => {
            lemma_more_rate(kbps + sb, kbps + sa, length);
        },
        None => {
            let scale = frame::scaling(a, w as int, h as int, fps, None);
            frame::lemma_scaled_positive(a, w, h, fps, None);
            let source = job::source_length(a);
            let (ca, cb) = (pixel_cost(a.format, a.quality), pixel_cost(b.format, b.quality));
            lemma_more_picture(cb, ca, scale.width, scale.height, fps, source);
            assert(sb * length <= sa * length) by (nonlinear_arith)
                requires
                    sb <= sa,
                    length > 0,
            ;
            lemma_more_bytes(
                picture_bits(cb, scale.width, scale.height, fps, source) + sb * length
                    * 1_000_000_000_000_000,
                picture_bits(ca, scale.width, scale.height, fps, source) + sa * length
                    * 1_000_000_000_000_000,
                8_000_000_000_000_000_000_000,
            );
        },
    }
}

/// At constant quality every pixel of every frame has its price: a tenth of a bit at High,
/// 0.065 at Balanced and 0.035 at Small, or 0.07 and 0.05 in webm. The sound beside it, where it is
/// kept, adds its rate over the finished length. The estimate is that many bytes, to the nearest.
pub proof fn law_constant_quality_has_its_price(
    job: ExportJob,
    width: i64,
    height: i64,
    fps: int,
    has_audio: bool,
    logs: Seq<i64>,
)
    requires
        !job.lossless,
        !job.format.audio(),
        !(job.format is Gif),
        !(job.quality is Fit),
        job.video_kbps is None,
        job.output_height is None,
        job.crop is None,
        width >= 2,
        height >= 2,
        fps > 0,
        job::output_length(job, logs) > 0,
    ensures
        ({
            let price = match (job.quality, job.format is Webm) {
                (QualityPreset::High, _) => 100int,
                (QualityPreset::Balanced, true) => 70int,
                (QualityPreset::Balanced, false) => 65int,
                (_, true) => 50int,
                (_, false) => 35int,
            };
            let kbps = match (job.quality, job.format is Webm) {
                (_, true) => 128int,
                (QualityPreset::High, false) => 160int,
                (QualityPreset::Balanced, false) => 128int,
                (_, false) => 96int,
            };
            let pixels = width * height;
            let picture = price * pixels * fps * (job.out_point - job.in_point);
            let sound = if has_audio && !job.mute {
                kbps * job::output_length(job, logs) * 1_000_000_000_000_000
            } else {
                0
            };
            let size = estimated(job, width, height, fps, has_audio, logs);
            let d = 8_000_000_000_000_000_000_000int;
            job.out_point - job.in_point <= i64::MAX && size < u64::MAX ==> -d <= 2 * (size * d - (picture
                + sound)) <= d
        }),
{
    let length = job::output_length(job, logs);
    let keep = has_audio && !job.mute;
    let (tw, th) = job::turned(job, width, height);
    let (w, h) = (tw as int, th as int);
    let source = job::source_length(job);
    assert(job::source_length(job) == 0 ==> job::output_length(job, logs) == 0) by {
        if job.out_point <= job.in_point && ramp::ramped(job.ramp@) {
            assert(job::job_segments(job).len() == 0);
            assert(ramp::length(job::job_segments(job), logs) == 0);
        }
    }
    assert(rates::budget(job) is None);
    let price = pixel_cost(job.format, job.quality);
    let side = if keep {
        rates::side_rate(job)
    } else {
        0
    };
    lemma_more_picture(0, price, w, h, fps, source);
    let beside = side * length * 1_000_000_000_000_000;
    assert(beside >= 0) by (nonlinear_arith)
        requires
            beside == side * length * 1_000_000_000_000_000,
            side >= 0,
            length > 0,
    ;
    lemma_bytes_near(picture_bits(price, w, h, fps, source) + beside, 8_000_000_000_000_000_000_000);
    let pixels = width * height;
    assert(w * h == pixels) by (nonlinear_arith)
        requires
            pixels == width * height,
            (w == width && h == height) || (w == height && h == width),
    ;
    assert(price * w * h * fps * source == price * pixels * fps * source) by (nonlinear_arith)
        requires
            w * h == pixels,
    ;
}

/// A file whose rate is held is its rate over its length: sound alone, or a picture with the sound
/// beside it.
pub proof fn law_a_held_rate_is_kept(
    job: ExportJob,
    width: i64,
    height: i64,
    fps: int,
    has_audio: bool,
    logs: Seq<i64>,
)
    requires
        !job.lossless,
        width >= 2,
        height >= 2,
        job::output_length(job, logs) > 0,
    ensures
        ({
            let length = job::output_length(job, logs);
            let size = estimated(job, width, height, fps, has_audio, logs);
            let held = if job.format.audio() {
                rates::sound_rate(job, logs)
            } else {
                rates::picture_rate(job, has_audio && !job.mute, logs)->0 + (if has_audio && !job.mute {
                    rates::side_rate(job)
                } else {
                    0
                })
            };
            &&& job.format.audio() && !has_audio ==> size == 0
            &&& held >= 0 && size < u64::MAX && ((job.format.audio() && has_audio) || (!job.format.audio() && !(
            job.format is Gif) && rates::picture_rate(job, has_audio && !job.mute, logs) is Some)) ==> {
                -8_000_000 <= 2 * (size * 8_000_000 - held * length) <= 8_000_000
            }
        }),
{
    let length = job::output_length(job, logs);
    let held = if job.format.audio() {
        rates::sound_rate(job, logs)
    } else {
        rates::picture_rate(job, has_audio && !job.mute, logs)->0 + (if has_audio && !job.mute {
            rates::side_rate(job)
        } else {
            0
        })
    };
    if held >= 0 {
        assert(held * length >= 0) by (nonlinear_arith)
            requires
                held >= 0,
                length > 0,
        ;
        lemma_bytes_near(held * length, 8_000_000);
    }
}

/// A gif takes 0.35 bytes for every pixel of every frame it keeps, and it keeps no more frames a
/// second, and none wider, than its preset allows. A stream copy is guessed at a tenth of a bit a
/// pixel and 128 kilobits a second of sound, over the source's window.
pub proof fn law_copies_and_gifs_have_their_price(
    job: ExportJob,
    width: i64,
    height: i64,
    fps: int,
    has_audio: bool,
    logs: Seq<i64>,
)
    requires
        width >= 2,
        height >= 2,
        fps > 0,
        job.crop is None,
        job.orientation.quarter_turns() == 0,
        job.in_point < job.out_point,
        job.out_point - job.in_point <= i64::MAX,
        job::output_length(job, logs) > 0,
    ensures
        ({
            let size = estimated(job, width, height, fps, has_audio, logs);
            let (window, length) = (job.out_point - job.in_point, job::output_length(job, logs));
            let (most, widest) = match job.quality {
                QualityPreset::High => (20int, 640int),
                QualityPreset::Small => (10int, 360int),
                _ => (15int, 480int),
            };
            let across = if width < widest {
                width as int
            } else {
                widest
            };
            let down = frame::follows(height as int, across, width as int);
            // Frames, in billionths of billionths.
            let frames = if fps * window <= most * 1_000_000_000 * length {
                fps * window
            } else {
                most * 1_000_000_000 * length
            };
            let sound = if has_audio && !job.mute {
                128_000 * window * 1_000_000_000_000
            } else {
                0
            };
            let (d, e) = (100_000_000_000_000_000_000int, 8_000_000_000_000_000_000_000int);
            &&& !job.lossless && job.format is Gif && size < u64::MAX ==> -d <= 2 * (size * d - 35 * (across
                * down * frames)) <= d
            &&& job.lossless && size < u64::MAX ==> -e <= 2 * (size * e - (100 * width * height * fps * window
                + sound)) <= e
        }),
{
    let (window, length) = (job.out_point - job.in_point, job::output_length(job, logs));
    let (cap, limit_width) = frame::gif_limits(job.quality);
    let across = if width < limit_width {
        width as int
    } else {
        limit_width
    };
    let down = frame::follows(height as int, across, width as int);
    let keep = has_audio && !job.mute;
    if job.lossless {
        lemma_more_picture(0, 100, width as int, height as int, fps, window);
        lemma_bytes_near(
            picture_bits(100, width as int, height as int, fps, window) + (if keep {
                128_000 * window * 1_000_000_000_000
            } else {
                0
            }),
            8_000_000_000_000_000_000_000,
        );
    } else if job.format is Gif {
        let full = fps * window;
        let most = cap * 1_000_000_000 * length;
        let frames = if full <= most {
            full
        } else {
            most
        };
        assert(full >= 0 && most >= 0) by (nonlinear_arith)
            requires
                full == fps * window,
                most == cap * 1_000_000_000 * length,
                fps > 0,
                window > 0,
                cap > 0,
                length > 0,
        ;
        let area = across * down;
        assert(area >= 0) by (nonlinear_arith)
            requires
                area == across * down,
                across >= 0,
                down >= 0,
        ;
        assert(area * frames >= 0) by (nonlinear_arith)
            requires
                area >= 0,
                frames >= 0,
        ;
        assert(35 * across * down * fps * window == 35 * (area * full) && 35 * across * down * (cap
            * 1_000_000_000) * length == 35 * (area * most)) by (nonlinear_arith)
            requires
                area == across * down,
                full == fps * window,
                most == cap * 1_000_000_000 * length,
        ;
        lemma_bytes_near(35 * (area * frames), 100_000_000_000_000_000_000);
    }
}

} // verus!
