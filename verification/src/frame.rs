//! The size of the picture: cropping it to whole chroma samples, and scaling it down, never up.

use vstd::prelude::*;
use vstd::string::*;

use crate::job::{ExportJob, QualityPreset, Rect};
use crate::number;
use crate::number::{div_round, signed_text, ONE};

verus! {

// --- Cropping ---

pub open spec fn clamped(v: int, top: int) -> int {
    if v < 0 {
        0
    } else if v > top {
        top
    } else {
        v
    }
}

pub open spec fn at_least(v: int, low: int) -> int {
    if v < low {
        low
    } else {
        v
    }
}

/// Where a stretch of `length` from `start` lies inside `0..top`: its beginning and its extent,
/// both made even. The extent comes from the stretch's own edges.
pub open spec fn inside(start: int, length: int, top: int) -> (int, int) {
    let near = clamped(start, top);
    let far = clamped(start + at_least(length, 0), top);
    let extent = at_least(far - near, 0);
    (near - near % 2, extent - extent % 2)
}

/// The crop that a rectangle means on a frame of this size. Chroma is subsampled 2x2, so offsets
/// and extents are even; a rectangle that leaves under two pixels either way crops nothing.
pub open spec fn crop_within(rect: Rect, width: i64, height: i64) -> Option<Rect> {
    let (x, w) = inside(rect.x as int, rect.w as int, width as int);
    let (y, h) = inside(rect.y as int, rect.h as int, height as int);
    if width < 2 || height < 2 || w < 2 || h < 2 {
        None
    } else {
        Some(Rect { x: x as i64, y: y as i64, w: w as i64, h: h as i64 })
    }
}

/// A crop is even on all four numbers and lies inside the frame.
pub proof fn law_crop_is_even_and_inside(rect: Rect, width: i64, height: i64)
    ensures
        crop_within(rect, width, height) matches Some(r) ==> {
            &&& r.x % 2 == 0 && r.y % 2 == 0 && r.w % 2 == 0 && r.h % 2 == 0
            &&& 0 <= r.x && 2 <= r.w && r.x + r.w <= width
            &&& 0 <= r.y && 2 <= r.h && r.y + r.h <= height
        },
{
}

fn even_floor(v: i64) -> (r: i64)
    requires
        v >= 0,
    ensures
        r == v - v % 2,
        0 <= r <= v,
{
    let u: u64 = v as u64;
    (u - u % 2) as i64
}

fn fit_inside(start: i64, length: i64, top: i64) -> (r: (i64, i64))
    requires
        top >= 2,
    ensures
        r.0 == inside(start as int, length as int, top as int).0,
        r.1 == inside(start as int, length as int, top as int).1,
{
    let near: i64 = if start < 0 {
        0
    } else if start > top {
        top
    } else {
        start
    };
    let edge: i128 = start as i128 + (if length < 0 {
        0
    } else {
        length as i128
    });
    let far: i64 = if edge < 0 {
        0
    } else if edge > top as i128 {
        top
    } else {
        edge as i64
    };
    let extent: i64 = if far < near {
        0
    } else {
        far - near
    };
    (even_floor(near), even_floor(extent))
}

/// The crop that a rectangle means on a frame of this size. The rectangle arrives from a mouse
/// drag and can land outside the frame.
pub fn normalize_crop(rect: &Rect, width: i64, height: i64) -> (r: Option<Rect>)
    ensures
        r == crop_within(*rect, width, height),
{
    if width < 2 || height < 2 {
        return None;
    }
    let (x, w) = fit_inside(rect.x, rect.w, width);
    let (y, h) = fit_inside(rect.y, rect.h, height);
    if w < 2 || h < 2 {
        return None;
    }
    Some(Rect { x, y, w, h })
}

/// The crop of a job on a frame of this size.
pub open spec fn job_crop(job: ExportJob, width: i64, height: i64) -> Option<Rect> {
    match job.crop {
        Some(rect) => crop_within(rect, width, height),
        None => None,
    }
}

pub fn crop_of(job: &ExportJob, width: i64, height: i64) -> (r: Option<Rect>)
    ensures
        r == job_crop(*job, width, height),
{
    match job.crop {
        Some(rect) => normalize_crop(&rect, width, height),
        None => None,
    }
}

/// The frame after the crop.
pub open spec fn after_crop(job: ExportJob, width: i64, height: i64) -> (i64, i64) {
    match job_crop(job, width, height) {
        Some(r) => (r.w, r.h),
        None => (width, height),
    }
}

/// The frame after the crop, which is what both the scale step and the estimator measure against.
pub fn cropped_size(job: &ExportJob, width: i64, height: i64) -> (r: (i64, i64))
    ensures
        r == after_crop(*job, width, height),
{
    match crop_of(job, width, height) {
        Some(r) => (r.w, r.h),
        None => (width, height),
    }
}

// --- Scaling ---

/// The standard 16:9 widths, all even, so that FFmpeg's `-2` on the other axis yields an even
/// height.
pub open spec fn ladder(i: int) -> int {
    if i == 0 {
        1280
    } else if i == 1 {
        854
    } else {
        640
    }
}

fn rung(i: usize) -> (r: i64)
    ensures
        r == ladder(i as int),
{
    if i == 0 {
        1280
    } else if i == 1 {
        854
    } else {
        640
    }
}

/// An even number of at least two, the way FFmpeg's `-2` rounds.
pub open spec fn evened(v: int) -> int {
    (at_least(v, 2) / 2) * 2
}

/// The other side of a frame when its `side` becomes `to`, keeping the aspect.
pub open spec fn follows(other: int, to: int, side: int) -> int {
    evened(number::nearest(other * to, side))
}

/// Whether a rate gives every pixel of the frame at least 0.04 bits. Below that, H.264 stops
/// holding detail.
pub open spec fn comfortable(kbps: int, w: int, h: int, fps: int) -> bool {
    w * h * fps <= 0 || kbps * 25_000_000_000_000 >= w * h * fps
}

/// A frame rate, or 30 where there is none.
pub open spec fn rate_or_30(fps: int) -> int {
    if fps > 0 {
        fps
    } else {
        30 * ONE
    }
}

/// The first width from rung `i` of the ladder on that is narrower than the frame and
/// comfortable, or else the narrowest.
pub open spec fn step_down(kbps: int, width: int, height: int, fps: int, i: int) -> Option<int>
    decreases 3 - i,
{
    if i >= 3 {
        None
    } else {
        let below = step_down(kbps, width, height, fps, i + 1);
        let w = ladder(i);
        if w >= width {
            below
        } else if comfortable(kbps, w, follows(height, w, width), fps) {
            Some(w)
        } else {
            match below {
                Some(narrower) => Some(narrower),
                None => Some(w),
            }
        }
    }
}

/// The width a rate asks for; `None` where the frame is fine as it is.
pub open spec fn narrowed(kbps: int, width: int, height: int, fps: int) -> Option<int> {
    if width < 2 || height < 2 || comfortable(kbps, width, height, rate_or_30(fps)) {
        None
    } else {
        step_down(kbps, width, height, rate_or_30(fps), 0)
    }
}

pub fn even_down(value: i64) -> (r: i64)
    ensures
        r == evened(value as int),
        r >= 2,
{
    let v: u64 = if value < 2 {
        2
    } else {
        value as u64
    };
    ((v / 2) * 2) as i64
}

proof fn lemma_follows(other: int, to: int, side: int)
    requires
        2 <= other <= i64::MAX,
        0 < to <= side,
    ensures
        0 <= number::nearest(other * to, side) <= other,
        2 <= follows(other, to, side) <= other,
        0 <= other * to,
{
    let n = other * to;
    assert(n >= 0 && n <= other * side) by (nonlinear_arith)
        requires
            n == other * to,
            other >= 2,
            0 < to <= side,
    ;
    number::lemma_nearest_parts(n, side);
    vstd::arithmetic::div_mod::lemma_fundamental_div_mod(n, side);
    let q = n / side;
    let r = n % side;
    assert(number::nearest(n, side) <= other) by (nonlinear_arith)
        requires
            n == side * q + r,
            0 <= r < side,
            n <= other * side,
            number::nearest(n, side) == q + (if 2 * r >= side {
                1int
            } else {
                0int
            }),
            side > 0,
    ;
}

/// The other side of a frame when its `side` becomes `to`.
pub fn follow(other: i64, to: i64, side: i64) -> (r: i64)
    requires
        other >= 2,
        0 < to <= side,
    ensures
        r == follows(other as int, to as int, side as int),
        2 <= r <= other,
{
    proof {
        lemma_follows(other as int, to as int, side as int);
        assert(other * to <= 0x4000_0000_0000_0000_0000_0000_0000_0000) by (nonlinear_arith)
            requires
                0 <= other <= i64::MAX,
                0 <= to <= i64::MAX,
        ;
    }
    even_down(div_round(other as i128 * to as i128, side as i128) as i64)
}

fn is_comfortable(kbps: i64, w: i64, h: i64, fps: i64) -> (r: bool)
    requires
        w >= 2,
        h >= 2,
        fps > 0,
    ensures
        r == comfortable(kbps as int, w as int, h as int, fps as int),
{
    proof {
        assert(w * h > 0 && w * h * fps > 0) by (nonlinear_arith)
            requires
                w >= 2,
                h >= 2,
                fps > 0,
        ;
        assert(w * h <= 0x4000_0000_0000_0000_0000_0000_0000_0000) by (nonlinear_arith)
            requires
                0 <= w <= i64::MAX,
                0 <= h <= i64::MAX,
        ;
    }
    if kbps < 0 {
        return false;
    }
    let bits: u128 = kbps as u128 * 25_000_000_000_000;
    let pixels: u128 = w as u128 * h as u128;
    let per_frame: u128 = bits / fps as u128;
    proof {
        vstd::arithmetic::div_mod::lemma_fundamental_div_mod(bits as int, fps as int);
        let rest = bits as int % fps as int;
        assert(per_frame >= pixels <==> bits >= pixels * fps) by (nonlinear_arith)
            requires
                bits == fps * per_frame + rest,
                0 <= rest < fps,
                fps > 0,
        ;
    }
    per_frame >= pixels
}

fn step_down_from(kbps: i64, width: i64, height: i64, fps: i64, i: usize) -> (r: Option<i64>)
    requires
        width >= 2,
        height >= 2,
        fps > 0,
        i <= 3,
    ensures
        r is Some <==> step_down(
            kbps as int,
            width as int,
            height as int,
            fps as int,
            i as int,
        ) is Some,
        r matches Some(w) ==> w == step_down(
            kbps as int,
            width as int,
            height as int,
            fps as int,
            i as int,
        )->0 && 2 <= w < width,
    decreases 3 - i,
{
    if i >= 3 {
        return None;
    }
    let below = step_down_from(kbps, width, height, fps, i + 1);
    let w = rung(i);
    if w >= width {
        return below;
    }
    let h = follow(height, w, width);
    if is_comfortable(kbps, w, h, fps) {
        return Some(w);
    }
    match below {
        Some(narrower) => Some(narrower),
        None => Some(w),
    }
}

/// The width a rate asks for: steps down the ladder until the budget is comfortable or its end is
/// reached. Past a point, spending the budget on 1080p pixels means every one is wrong.
pub fn downscale_width(video_kbps: i64, width: i64, height: i64, fps: i64) -> (r: Option<i64>)
    ensures
        r is Some <==> narrowed(video_kbps as int, width as int, height as int, fps as int) is Some,
        r matches Some(w) ==> w == narrowed(
            video_kbps as int,
            width as int,
            height as int,
            fps as int,
        )->0 && 2 <= w < width && height >= 2,
{
    if width < 2 || height < 2 {
        return None;
    }
    let rate: i64 = if fps > 0 {
        fps
    } else {
        30_000_000_000
    };
    if is_comfortable(video_kbps, width, height, rate) {
        return None;
    }
    step_down_from(video_kbps, width, height, rate, 0)
}

/// A scale step: its filter, where there is one, and the frame after it.
pub struct Scaled {
    pub filter: Option<String>,
    pub width: i64,
    pub height: i64,
}

/// A scale step in terms of what it spells.
pub struct Scaling {
    pub filter: Option<Seq<char>>,
    pub width: int,
    pub height: int,
}

impl View for Scaled {
    type V = Scaling;

    open spec fn view(&self) -> Scaling {
        Scaling {
            filter: match self.filter {
                Some(f) => Some(f@),
                None => None,
            },
            width: self.width as int,
            height: self.height as int,
        }
    }
}

/// The step that brings the smaller dimension to `target`, or `None` where that would not make
/// the frame smaller.
pub open spec fn resized(target: int, width: int, height: int) -> Option<Scaling> {
    if target < 2 || width < 2 || height < 2 {
        None
    } else if width >= height {
        if target >= height {
            None
        } else {
            Some(
                Scaling {
                    filter: Some("scale=-2:"@ + number::signed(target)),
                    width: follows(width, target, height),
                    height: target,
                },
            )
        }
    } else if target >= width {
        None
    } else {
        Some(
            Scaling {
                filter: Some("scale="@ + number::signed(target) + ":-2"@),
                width: target,
                height: follows(height, target, width),
            },
        )
    }
}

/// The frame as it stands.
pub open spec fn unscaled(width: int, height: int) -> Scaling {
    Scaling { filter: None, width, height }
}

/// A rate as a number of any size.
pub open spec fn wide(kbps: Option<i64>) -> Option<int> {
    match kbps {
        Some(k) => Some(k as int),
        None => None,
    }
}

/// The scale step of a job. An explicit output height owns this step outright: the ladder neither
/// adds a second scale on top of it nor overrides one that was refused.
pub open spec fn scaling(job: ExportJob, width: int, height: int, fps: int, fit_kbps: Option<int>) -> Scaling {
    match job.output_height {
        Some(target) => match resized(target as int, width, height) {
            Some(s) => s,
            None => unscaled(width, height),
        },
        None => match fit_kbps {
            Some(kbps) => match narrowed(kbps, width, height, fps) {
                Some(w) => Scaling {
                    filter: Some("scale="@ + number::signed(w) + ":-2"@),
                    width: w,
                    height: follows(height, w, width),
                },
                None => unscaled(width, height),
            },
            None => unscaled(width, height),
        },
    }
}

fn scale_to_height(target: i64) -> (r: String)
    ensures
        r@ == "scale=-2:"@ + number::signed(target as int),
{
    let mut filter = "scale=-2:".to_string();
    filter.append(signed_text(target).as_str());
    filter
}

fn scale_to_width(target: i64) -> (r: String)
    ensures
        r@ == "scale="@ + number::signed(target as int) + ":-2"@,
{
    let mut filter = "scale=".to_string();
    filter.append(signed_text(target).as_str());
    filter.append(":-2");
    filter
}

/// The requested number names the smaller dimension, so it lands on the height of a landscape
/// frame and the width of a portrait one.
pub fn explicit_scale(target: i64, width: i64, height: i64) -> (r: Option<Scaled>)
    ensures
        r is Some <==> resized(target as int, width as int, height as int) is Some,
        r matches Some(s) ==> s@ == resized(target as int, width as int, height as int)->0,
{
    if target < 2 || width < 2 || height < 2 {
        return None;
    }
    if width >= height {
        if target >= height {
            return None;
        }
        Some(
            Scaled {
                filter: Some(scale_to_height(target)),
                width: follow(width, target, height),
                height: target,
            },
        )
    } else {
        if target >= width {
            return None;
        }
        Some(
            Scaled {
                filter: Some(scale_to_width(target)),
                width: target,
                height: follow(height, target, width),
            },
        )
    }
}

pub fn scale_step(job: &ExportJob, width: i64, height: i64, fps: i64, fit_kbps: Option<i64>) -> (r:
    Scaled)
    ensures
        r@ == scaling(*job, width as int, height as int, fps as int, wide(fit_kbps)),
{
    if let Some(target) = job.output_height {
        return match explicit_scale(target, width, height) {
            Some(s) => s,
            None => Scaled { filter: None, width, height },
        };
    }
    if let Some(kbps) = fit_kbps {
        if let Some(w) = downscale_width(kbps, width, height, fps) {
            return Scaled {
                filter: Some(scale_to_width(w)),
                width: w,
                height: follow(height, w, width),
            };
        }
    }
    Scaled { filter: None, width, height }
}

proof fn lemma_step_down_narrower(kbps: int, width: int, height: int, fps: int, i: int)
    requires
        0 <= i <= 3,
    ensures
        step_down(kbps, width, height, fps, i) matches Some(w) ==> 640 <= w <= 1280 && w < width,
    decreases 3 - i,
{
    if i < 3 {
        lemma_step_down_narrower(kbps, width, height, fps, i + 1);
    }
}

pub proof fn lemma_scaled_positive(job: ExportJob, width: i64, height: i64, fps: int, fit_kbps: Option<int>)
    requires
        width >= 2,
        height >= 2,
    ensures
        scaling(job, width as int, height as int, fps, fit_kbps).width >= 2,
        scaling(job, width as int, height as int, fps, fit_kbps).height >= 2,
{
    let w = width as int;
    let h = height as int;
    if let Some(target) = job.output_height {
        let t = target as int;
        if t >= 2 {
            if w >= h && t < h {
                lemma_follows(w, t, h);
            } else if w < h && t < w {
                lemma_follows(h, t, w);
            }
        }
    } else if let Some(kbps) = fit_kbps {
        lemma_step_down_narrower(kbps, w, h, rate_or_30(fps), 0);
        if let Some(n) = narrowed(kbps, w, h, fps) {
            lemma_follows(h, n, w);
        }
    }
}

/// No scale step makes the frame larger, and one that is there makes it smaller.
pub proof fn law_never_upscales(job: ExportJob, width: i64, height: i64, fps: int, fit_kbps: Option<int>)
    ensures
        ({
            let s = scaling(job, width as int, height as int, fps, fit_kbps);
            &&& s.width <= width && s.height <= height
            &&& s.filter is Some ==> s.width < width || s.height < height
            &&& s.filter is None ==> s.width == width && s.height == height
        }),
{
    let w = width as int;
    let h = height as int;
    if let Some(target) = job.output_height {
        let t = target as int;
        if t >= 2 && w >= 2 && h >= 2 {
            if w >= h && t < h {
                lemma_follows(w, t, h);
            } else if w < h && t < w {
                lemma_follows(h, t, w);
            }
        }
    } else if let Some(kbps) = fit_kbps {
        lemma_step_down_narrower(kbps, w, h, rate_or_30(fps), 0);
        if let Some(n) = narrowed(kbps, w, h, fps) {
            lemma_follows(h, n, w);
        }
    }
}

// --- Gif ---

/// The frame rate and width caps of the gif chain at each quality.
pub open spec fn gif_limits(quality: QualityPreset) -> (int, int) {
    match quality {
        QualityPreset::High => (20, 640),
        QualityPreset::Small => (10, 360),
        _ => (15, 480),
    }
}

pub fn gif_caps(quality: QualityPreset) -> (r: (i64, i64))
    ensures
        r.0 == gif_limits(quality).0,
        r.1 == gif_limits(quality).1,
{
    match quality {
        QualityPreset::High => (20, 640),
        QualityPreset::Small => (10, 360),
        _ => (15, 480),
    }
}

// --- What holds of every frame ---

/// A crop keeps the part of the frame that was drawn around, to the pixel that evening it out
/// costs. Every column and row it keeps was drawn around or stands right before one that was, and
/// of those that were drawn around at most the last two are lost. Nothing is cropped only where
/// under two pixels would be left, either way.
pub proof fn law_crop_keeps_what_was_drawn(rect: Rect, width: i64, height: i64, c: int)
    requires
        width >= 2,
        height >= 2,
        rect.w > 0,
        rect.h > 0,
    ensures
        crop_within(rect, width, height) matches Some(r) ==> {
            &&& r.x <= c < r.x + r.w ==> rect.x <= c + 1 && c < rect.x + rect.w
            &&& 0 <= c && rect.x <= c < rect.x + rect.w - 2 && c < width - 2 ==> r.x <= c < r.x + r.w
            &&& r.y <= c < r.y + r.h ==> rect.y <= c + 1 && c < rect.y + rect.h
            &&& 0 <= c && rect.y <= c < rect.y + rect.h - 2 && c < height - 2 ==> r.y <= c < r.y + r.h
        },
        0 <= rect.x && rect.x + rect.w <= width && 2 <= rect.w && 0 <= rect.y && rect.y + rect.h <= height && 2
            <= rect.h ==> crop_within(rect, width, height) is Some,
        rect.x % 2 == 0 && rect.y % 2 == 0 && rect.w % 2 == 0 && rect.h % 2 == 0 && 0 <= rect.x && rect.x
            + rect.w <= width && 0 <= rect.y && rect.y + rect.h <= height ==> crop_within(
            rect,
            width,
            height,
        ) == Some(rect),
{
}

/// The other side of a frame follows the one that is set: it is what keeps the aspect, made even,
/// so at most a pixel and a half below it and half a pixel above.
pub proof fn law_aspect_is_kept(other: int, to: int, side: int)
    requires
        0 < side,
        0 < to,
        0 < other,
        2 * side <= other * to,
    ensures
        follows(other, to, side) % 2 == 0,
        -3 * side <= 2 * (follows(other, to, side) * side - other * to) <= side,
{
    let n = other * to;
    number::lemma_near(n, side);
    let (x, f) = (number::nearest(n, side), follows(other, to, side));
    assert(x >= 2) by (nonlinear_arith)
        requires
            -side <= 2 * (x * side - n) <= side,
            n >= 2 * side,
            side > 0,
    ;
    assert(x - 1 <= f <= x);
    assert(x * side - side <= f * side <= x * side) by (nonlinear_arith)
        requires
            x - 1 <= f <= x,
            side > 0,
    ;
}

/// A size that is asked for is the shorter edge of what comes out, and the longer edge keeps the
/// aspect. One that would not make the frame smaller changes nothing.
pub proof fn law_short_edge_is_as_asked(
    job: ExportJob,
    width: i64,
    height: i64,
    fps: int,
    fit_kbps: Option<int>,
)
    requires
        width >= 2,
        height >= 2,
        job.output_height is Some,
        job.output_height->0 >= 2,
    ensures
        ({
            let asked = job.output_height->0;
            let s = scaling(job, width as int, height as int, fps, fit_kbps);
            let short = if width < height {
                width
            } else {
                height
            };
            &&& asked < short && height <= width ==> s.height == asked && -3 * height <= 2 * (s.width * height
                - width * asked) <= height
            &&& asked < short && width < height ==> s.width == asked && -3 * width <= 2 * (s.height * width
                - height * asked) <= width
            &&& asked >= short ==> s.width == width && s.height == height && s.filter is None
        }),
{
    let asked = job.output_height->0 as int;
    let (w, h) = (width as int, height as int);
    if h <= w && asked < h {
        assert(w * asked >= 2 * h) by (nonlinear_arith)
            requires
                w >= h,
                asked >= 2,
                h > 0,
        ;
        law_aspect_is_kept(w, asked, h);
    } else if w < h && asked < w {
        assert(h * asked >= 2 * w) by (nonlinear_arith)
            requires
                h >= w,
                asked >= 2,
                w > 0,
        ;
        law_aspect_is_kept(h, asked, w);
    }
}

/// Whether a rate of `kbps` kilobits a second has 0.04 bits for every pixel of every frame.
pub open spec fn has_bits_enough(kbps: int, w: int, h: int, fps: int) -> bool {
    1000 * kbps * 100 * 1_000_000_000 >= 4 * (w * h * fps)
}

/// A size target narrows the frame only where the rate is too thin for it, and then to the widest
/// of 1280, 854 and 640 that the rate is enough for, or to the narrowest of them that is narrower
/// than the frame.
pub proof fn law_target_narrows_no_more_than_it_must(kbps: int, width: int, height: int, fps: int)
    requires
        2 <= width <= i64::MAX,
        2 <= height <= i64::MAX,
        fps > 0,
        kbps > 0,
    ensures
        has_bits_enough(kbps, width, height, fps) ==> narrowed(kbps, width, height, fps) is None,
        width <= 640 ==> narrowed(kbps, width, height, fps) is None,
        narrowed(kbps, width, height, fps) matches Some(w) ==> {
            &&& w == 1280 || w == 854 || w == 640
            &&& w < width
            &&& w == 640 || has_bits_enough(kbps, w, follows(height, w, width), fps)
            &&& w < 1280 && 1280 < width ==> !has_bits_enough(kbps, 1280, follows(height, 1280, width), fps)
            &&& w < 854 && 854 < width ==> !has_bits_enough(kbps, 854, follows(height, 854, width), fps)
        },
        !has_bits_enough(kbps, width, height, fps) && width > 640 ==> narrowed(kbps, width, height, fps) is Some,
{
    lemma_bits(kbps, width, height, fps);
    if width > 640 {
        lemma_follows(height, 640, width);
        lemma_bits(kbps, 640, follows(height, 640, width), fps);
    }
    if width > 854 {
        lemma_follows(height, 854, width);
        lemma_bits(kbps, 854, follows(height, 854, width), fps);
    }
    if width > 1280 {
        lemma_follows(height, 1280, width);
        lemma_bits(kbps, 1280, follows(height, 1280, width), fps);
    }
    reveal_with_fuel(step_down, 4);
}

proof fn lemma_bits(kbps: int, w: int, h: int, fps: int)
    requires
        w > 0,
        h > 0,
        fps > 0,
    ensures
        comfortable(kbps, w, h, fps) == has_bits_enough(kbps, w, h, fps),
{
    let p = w * h;
    assert(p > 0) by (nonlinear_arith)
        requires
            p == w * h,
            w > 0,
            h > 0,
    ;
    assert(p * fps > 0) by (nonlinear_arith)
        requires
            p > 0,
            fps > 0,
    ;
}

/// A gif is never faster or wider than its preset allows, and a better preset allows more.
pub proof fn law_gif_presets_are_ordered()
    ensures
        gif_limits(QualityPreset::Small) == (10int, 360int),
        gif_limits(QualityPreset::Balanced) == (15int, 480int),
        gif_limits(QualityPreset::High) == (20int, 640int),
        gif_limits(QualityPreset::Fit) == gif_limits(QualityPreset::Balanced),
{
}

} // verus!
