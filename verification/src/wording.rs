//! What the commands that are spelled out say: the numbers in them are the ones that were asked
//! for.

use vstd::prelude::*;
use vstd::string::*;

use crate::command;
use crate::expression;
use crate::filters;
use crate::frame;
use crate::job;
use crate::job::{Effects, ExportFormat, ExportJob, Rect, TextAnchorX, TextAnchorY, TextOverlay};
use crate::number;
use crate::number::ONE;
use crate::ramp;
use crate::rates;
use crate::reading;
use crate::reading::Reading;
use crate::sysutil;
use crate::text;
use crate::timing;

verus! {

/// A number that is spelled out and comes, to the millionth, to a quantity.
pub open spec fn says(n: Seq<char>, v: int) -> bool {
    expression::is_number(n) && expression::near(expression::worth(n), timing::plain(v))
}

/// A quantity that is small enough to be spelled to the millionth.
pub open spec fn sayable(v: int) -> bool {
    -3_000_000_000_000_000_000 <= v <= 3_000_000_000_000_000_000
}

pub open spec fn lesser(a: int, b: int) -> int {
    if a < b {
        a
    } else {
        b
    }
}

/// A time that is spelled out and comes, to the half millisecond, to a quantity.
pub open spec fn says_time(n: Seq<char>, v: int) -> bool {
    reading::reading(n, 6) matches Some(Reading::Value(m)) && m >= 0 && (if v <= 0 {
        m == 0
    } else {
        -500_500 <= m * 1000 - v <= 500_500
    })
}

/// A whole number that is spelled out.
pub open spec fn says_whole(n: Seq<char>, v: int) -> bool {
    reading::reading(n, 0) == Some(Reading::Value(v as i64))
}

proof fn lemma_says(v: int)
    requires
        sayable(v),
    ensures
        says(number::num_text(v), v),
{
    expression::law_worth_of_a_ratio(v, ONE as int);
}

proof fn lemma_says_whole(v: int)
    requires
        0 <= v <= i64::MAX,
    ensures
        says_whole(number::signed(v), v),
{
    assert(reading::pow10(0) == 1);
    assert(v * reading::pow10(0) == v);
    reading::law_whole_numbers_read_back(v as nat, 0);
}

// --- Effects ---

/// Each effect that is switched on says its own setting: brightness the same factor for all three
/// colours, contrast and saturation in one filter, the vignette an angle of two fifths of pi at
/// full strength. They come in that order.
pub proof fn law_effects_say_their_settings(fx: Effects, v: i64, w: i64)
    requires
        sayable(v as int),
        sayable(w as int),
    ensures
        filters::effects_chain(fx) == filters::brightness_filter(fx.brightness) + filters::colour_filter(
            fx.contrast,
            fx.saturation,
        ) + filters::dial("hue=h="@, fx.hue) + filters::dial("gblur=sigma="@, fx.blur)
            + filters::vignette_filter(fx.vignette),
        exists|n: Seq<char>| #[trigger]
            says(n, v as int) && filters::brightness_filter(Some(v)) == seq![
                "colorchannelmixer=rr="@ + n + ":gg="@ + n + ":bb="@ + n,
            ] && filters::dial("hue=h="@, Some(v)) == seq!["hue=h="@ + n] && filters::dial(
                "gblur=sigma="@,
                Some(v),
            ) == seq!["gblur=sigma="@ + n] && filters::colour_filter(Some(v), None) == seq![
                "eq=contrast="@ + n,
            ] && filters::colour_filter(None, Some(v)) == seq!["eq=saturation="@ + n],
        exists|n: Seq<char>, m: Seq<char>| #[trigger]
            says(n, v as int) && #[trigger] says(m, w as int) && filters::colour_filter(Some(v), Some(w)) == seq![
                "eq=contrast="@ + n + ":saturation="@ + m,
            ],
        exists|n: Seq<char>| #[trigger]
            expression::is_number(n) && filters::vignette_filter(Some(v)) == seq!["vignette=angle="@ + n]
                && expression::near(
                expression::worth(n),
                (v * 1_256_637_061_436) as real / 1_000_000_000_000_000_000_000int as real,
            ),
        filters::brightness_filter(None).len() == 0,
        filters::colour_filter(None, None).len() == 0,
        filters::vignette_filter(None).len() == 0,
        filters::dial("hue=h="@, None).len() == 0,
{
    lemma_says(v as int);
    lemma_says(w as int);
    let n = number::num_text(v as int);
    let m = number::num_text(w as int);
    assert(says(n, v as int) && says(m, w as int));
    expression::law_worth_of_a_ratio(v * 1_256_637_061_436, 1_000_000_000_000_000_000_000);
    let angle = number::ratio_text(v * 1_256_637_061_436, 1_000_000_000_000_000_000_000);
    assert(expression::is_number(angle));
    assert(filters::brightness_filter(Some(v)) == seq!["colorchannelmixer=rr="@ + n + ":gg="@ + n + ":bb="@ + n]);
}

/// A gain is said where it changes anything, and costs no filter where it does not.
pub proof fn law_volume_is_said(job: ExportJob, logs: Seq<i64>)
    requires
        sayable(job.volume as int),
    ensures
        filters::sound_filters(ExportJob { volume: 1_000_000_000, ..job }, logs).len() + 1 == filters::sound_filters(ExportJob { volume: 500_000_000, ..job }, logs).len(),
        job.volume > 1_000_000_000 || job.volume < 999_999_999 ==> exists|n: Seq<char>| #[trigger]
            says(n, job.volume as int) && filters::sound_filters(job, logs).contains("volume="@ + n),
{
    lemma_says(job.volume as int);
    let n = number::num_text(job.volume as int);
    assert(says(n, job.volume as int));
    let head = filters::tempo_stages(job) + filters::maybe(job.normalize, filters::loudnorm());
    let all = filters::sound_filters(job, logs);
    if number::changes(job.volume as int) {
        assert(all[head.len() as int] == "volume="@ + n);
    }
    let (a, b) = (ExportJob { volume: 1_000_000_000, ..job }, ExportJob { volume: 500_000_000, ..job });
    assert(filters::tempo_stages(a) == filters::tempo_stages(b));
    assert(filters::padding(a, logs) == filters::padding(b, logs));
    assert(job::output_length(a, logs) == job::output_length(b, logs));
}

/// At one speed every frame's time is divided by it, and at a speed of one nothing is done.
pub proof fn law_one_speed_divides_the_times(job: ExportJob, fps: int, logs: Seq<i64>)
    requires
        sayable(job.speed as int),
        !ramp::ramped(job.ramp@),
    ensures
        job.speed == 1_000_000_000 ==> filters::retiming(job, fps, logs).len() == 0,
        job.speed > 1_000_000_000 || job.speed < 999_999_999 ==> exists|n: Seq<char>| #[trigger]
            says(n, job.speed as int) && filters::retiming(job, fps, logs) == seq!["setpts=PTS/"@ + n],
{
    lemma_says(job.speed as int);
    let n = number::num_text(job.speed as int);
    assert(says(n, job.speed as int));
}

/// A fade in begins with the clip and a fade out ends with it: what it starts at and how long it
/// takes add up to the clip. A fade longer than the clip takes all of it. Picture and sound fade
/// alike.
pub proof fn law_fades_meet_the_ends(fx: Effects, total: int, video: bool, fade_in: i64, fade_out: i64)
    requires
        0 < total <= 4_000_000_000_000_000_000,
        fade_in > 0,
        fade_out > 0,
        fx.fade_in == Some(fade_in),
        fx.fade_out == Some(fade_out),
    ensures
        ({
            let name = if video {
                "fade"@
            } else {
                "afade"@
            };
            let (first, last) = (lesser(fade_in as int, total), lesser(fade_out as int, total));
            let all = filters::fades(fx, total, video);
            &&& all.len() == 2
            &&& exists|d: Seq<char>| #[trigger] says_time(d, first) && all[0] == name + "=t=in:st=0:d="@ + d
            &&& exists|s: Seq<char>, d: Seq<char>| #[trigger]
                says_time(s, total - last) && #[trigger] says_time(d, last) && all[1] == name + "=t=out:st="@ + s
                    + ":d="@ + d
        }),
        filters::fades(Effects { fade_in: None, fade_out: None, ..fx }, total, video).len() == 0,
{
    let (first, last) = (lesser(fade_in as int, total), lesser(fade_out as int, total));
    reading::law_times_read_back_finer(first);
    reading::law_times_read_back_finer(last);
    reading::law_times_read_back_finer(total - last);
    assert(says_time(number::time_text(first), first));
    assert(says_time(number::time_text(last), last));
    assert(says_time(number::time_text(total - last), total - last));
    let name = if video {
        "fade"@
    } else {
        "afade"@
    };
    let all = filters::fades(fx, total, video);
    let (x, y, z) = (number::time_text(first), number::time_text(total - last), number::time_text(last));
    assert(all =~= seq![name + "=t=in:st=0:d="@ + x, name + "=t=out:st="@ + y + ":d="@ + z]);
}

// --- Trim, crop and rates ---

/// The source is read from the in point on, and for as long as the trim is: the speed has no part
/// in it.
pub proof fn law_trim_is_read_from_the_source(job: ExportJob)
    requires
        0 <= job.in_point < job.out_point <= 4_000_000_000_000_000_000,
    ensures
        ({
            let args = command::opening(job);
            &&& args.len() == 10
            &&& args[4] == "-ss"@ && says_time(args[5], job.in_point as int)
            &&& args[6] == "-t"@ && says_time(args[7], job.out_point - job.in_point)
            &&& args[8] == "-i"@ && args[9] == job.input@
        }),
{
    reading::law_times_read_back_finer(job.in_point as int);
    reading::law_times_read_back_finer(job.out_point - job.in_point);
}

/// A crop is said as its width and height and then the place of its corner, across and down.
pub proof fn law_crop_is_said(r: Rect)
    requires
        0 <= r.x,
        0 <= r.y,
        0 <= r.w,
        0 <= r.h,
    ensures
        exists|w: Seq<char>, h: Seq<char>, x: Seq<char>, y: Seq<char>|
            #![trigger says_whole(w, r.w as int), says_whole(h, r.h as int), says_whole(x, r.x as int), says_whole(y, r.y as int)]
            says_whole(w, r.w as int) && says_whole(h, r.h as int) && says_whole(x, r.x as int) && says_whole(
                y,
                r.y as int,
            ) && command::cropping(Some(r)) == seq!["crop="@ + w + ":"@ + h + ":"@ + x + ":"@ + y],
        command::cropping(None).len() == 0,
{
    lemma_says_whole(r.w as int);
    lemma_says_whole(r.h as int);
    lemma_says_whole(r.x as int);
    lemma_says_whole(r.y as int);
    let (w, h) = (number::signed(r.w as int), number::signed(r.h as int));
    let (x, y) = (number::signed(r.x as int), number::signed(r.y as int));
    assert(command::cropping(Some(r)) == seq!["crop="@ + w + ":"@ + h + ":"@ + x + ":"@ + y]);
    assert(says_whole(w, r.w as int) && says_whole(h, r.h as int) && says_whole(x, r.x as int) && says_whole(
        y,
        r.y as int,
    ));
}

/// A rate that is held is said as the average and as the most, over twice a second of it.
pub proof fn law_a_held_rate_is_said(kbps: int)
    requires
        0 <= kbps <= 4_000_000_000_000_000_000,
    ensures
        exists|n: Seq<char>, m: Seq<char>| #[trigger]
            says_whole(n, kbps) && #[trigger] says_whole(m, 2 * kbps) && command::held_rate(kbps) == seq![
                "-b:v"@,
                n + "k"@,
                "-maxrate"@,
                n + "k"@,
                "-bufsize"@,
                m + "k"@,
            ],
{
    lemma_says_whole(kbps);
    lemma_says_whole(2 * kbps);
    let (n, m) = (number::signed(kbps), number::signed(2 * kbps));
    assert(says_whole(n, kbps) && says_whole(m, 2 * kbps));
}

// --- The filmstrip ---

/// The thumbnails of a strip are spread over the whole clip: their rate times its length is how
/// many are asked for, of which there are one to sixty-four, and they are 16 to 240 pixels high.
pub proof fn law_strip_is_spread_over_the_clip(path: Seq<char>, pattern: Seq<char>, count: int, height: int, length: int)
    requires
        1 <= count <= 64,
        16 <= height <= 240,
        100_000_000 <= length <= i64::MAX,
    ensures
        exists|rate: Seq<char>, n: Seq<char>, h: Seq<char>|
            #![trigger per_second(rate, count, length), says_whole(n, count), says_whole(h, height)]
            per_second(rate, count, length) && says_whole(n, count) && says_whole(h, height)
                && sysutil::filmstrip_command(path, pattern, count, height, length)[7] == "fps="@ + rate
                + ",scale=-2:"@ + h && sysutil::filmstrip_command(path, pattern, count, height, length)[9] == n,
        sysutil::filmstrip_command(path, pattern, count, height, length)[5] == path,
        sysutil::filmstrip_command(path, pattern, count, height, length).last() == pattern,
        forall|c: int| c < 1 ==> #[trigger] sysutil::filmstrip_command(path, pattern, c, height, length)
            == sysutil::filmstrip_command(path, pattern, 1, height, length),
        forall|c: int| c > 64 ==> #[trigger] sysutil::filmstrip_command(path, pattern, c, height, length)
            == sysutil::filmstrip_command(path, pattern, 64, height, length),
{
    let rate = sysutil::six_decimals(count * 1_000_000_000, length);
    let (n, h) = (number::signed(count), number::signed(height));
    lemma_says_whole(count);
    lemma_says_whole(height);
    reading::law_six_decimals_read_back(count * 1_000_000_000, length);
    assert(per_second(rate, count, length));
    assert(says_whole(n, count) && says_whole(h, height));
}

/// A number that is spelled out and, in millionths, times a length gives a count back.
pub open spec fn per_second(rate: Seq<char>, count: int, length: int) -> bool {
    reading::reading(rate, 6) matches Some(Reading::Value(m)) && -length <= 2 * (m * length - count
        * 1_000_000_000 * 1_000_000) <= length
}

// --- Curves and overlays ---

/// Under a curve the sound is padded without end and then cut to the picture's length, and its
/// times are counted anew; without one it is left alone.
pub proof fn law_curve_sound_ends_with_the_picture(job: ExportJob, logs: Seq<i64>)
    requires
        job::output_length(job, logs) <= 4_000_000_000_000_000_000,
    ensures
        ramp::ramped(job.ramp@) && job::output_length(job, logs) > 0 ==> exists|t: Seq<char>| #[trigger]
            says_time(t, job::output_length(job, logs)) && filters::padding(job, logs) == seq![
                "apad"@,
                "atrim=end="@ + t,
                "asetpts=N/SR/TB"@,
            ],
        !ramp::ramped(job.ramp@) ==> filters::padding(job, logs).len() == 0,
{
    let length = job::output_length(job, logs);
    reading::law_times_read_back_finer(length);
    assert(says_time(number::time_text(length), length));
}

/// Under a curve every frame gets its time from the curve's expression, in the stream's own units,
/// and the frame rate is settled where it is known.
pub proof fn law_curve_picture_is_said(job: ExportJob, fps: int, logs: Seq<i64>)
    requires
        ramp::ramped(job.ramp@),
        job::job_segments(job).len() > 0,
        sayable(fps),
    ensures
        ({
            let all = filters::retiming(job, fps, logs);
            &&& all.len() > 0
            &&& all[0] == "setpts='("@ + ramp::nested(job::job_segments(job), logs, 0) + ")/TB'"@
            &&& fps <= 0 ==> all.len() == 1
            &&& fps > 0 ==> all.len() == 2 && exists|n: Seq<char>| #[trigger] says(n, fps) && all[1] == "fps="@ + n
        }),
{
    lemma_says(fps);
    assert(says(number::num_text(fps), fps));
}

/// An overlay says its size as a share of the frame's height and how much it covers, and reads its
/// words from a file.
pub proof fn law_overlay_says_its_size(overlay: TextOverlay, font: Seq<char>)
    requires
        sayable(overlay.size as int),
        sayable(overlay.opacity as int),
    ensures
        exists|size: Seq<char>, cover: Seq<char>| #[trigger]
            says(size, overlay.size as int) && #[trigger] says(cover, overlay.opacity as int) && text::begins(
                filters::drawtext(overlay, font),
                "drawtext=fontfile="@ + filters::quoted_path(font) + ":textfile="@ + filters::OVERLAY_TEXT_FILE@
                    + ":expansion=none:fontsize=h*"@ + size + ":fontcolor="@ + filters::colour_text(
                    overlay.color@,
                ) + "@"@ + cover + ":"@,
            ),
{
    lemma_says(overlay.size as int);
    lemma_says(overlay.opacity as int);
    let (size, cover) = (number::num_text(overlay.size as int), number::num_text(overlay.opacity as int));
    assert(says(size, overlay.size as int) && says(cover, overlay.opacity as int));
    let head = "drawtext=fontfile="@ + filters::quoted_path(font) + ":textfile="@ + filters::OVERLAY_TEXT_FILE@
        + ":expansion=none:fontsize=h*"@ + size + ":fontcolor="@ + filters::colour_text(overlay.color@) + "@"@
        + cover + ":"@;
    let all = filters::drawtext(overlay, font);
    assert(all.take(head.len() as int) =~= head);
}

/// With nothing switched on nothing is said, and whatever is switched on counts as such, so that a
/// stream copy is refused it.
pub proof fn law_nothing_on_is_nothing_said(fx: Effects, total: int, video: bool, font: Option<Seq<char>>)
    ensures
        !fx.on() ==> filters::effects_chain(fx).len() == 0 && filters::fades(fx, total, video).len() == 0
            && command::lettering(fx, font).len() == 0,
        filters::effects_chain(fx).len() > 0 ==> fx.on(),
        filters::fades(fx, total, video).len() > 0 ==> fx.on(),
        command::lettering(fx, font).len() > 0 ==> fx.on(),
{
}

/// The formats that hold sound alone, and those that hold a picture.
pub proof fn law_formats_hold_what_they_hold(f: ExportFormat)
    ensures
        f is Mp3 || f is M4a || f is Wav || f is Flac || f is Ogg || f is Opus ==> f.audio(),
        f is Mp4 || f is Mkv || f is Mov || f is Webm || f is Gif ==> !f.audio(),
{
}

// --- What comes where ---

/// A command that gives a flag a value, right behind it.
pub open spec fn asks(args: Seq<Seq<char>>, flag: Seq<char>, value: Seq<char>) -> bool {
    exists|i: int| 0 <= i < args.len() - 1 && #[trigger] args[i] == flag && args[i + 1] == value
}

/// The frame is turned first, so that the crop is cut from the frame it was drawn on; then come the
/// new times and the effects, then the scale, and the lettering, the reversal and the fades on what
/// is left.
pub proof fn law_picture_is_worked_on_in_order(
    job: ExportJob,
    keep_audio: bool,
    width: i64,
    height: i64,
    fps: int,
    font: Option<Seq<char>>,
    logs: Seq<i64>,
)
    ensures
        ({
            let chain = command::picture_chain(job, keep_audio, width, height, fps, font, logs);
            let turned = job.orientation.filter_texts();
            let cropped = command::cropping(frame::job_crop(job, width, height));
            let timed = filters::retiming(job, fps, logs);
            let painted = filters::effects_chain(job.effects);
            let lettered = command::lettering(job.effects, font);
            let faded = filters::fades(job.effects, job::output_length(job, logs), true);
            let (a, b) = (turned.len(), turned.len() + cropped.len());
            let (c, d) = (b + timed.len(), b + timed.len() + painted.len());
            let e = chain.len() - faded.len();
            let f = if job.reverse {
                e - 1
            } else {
                e
            };
            let g = f - lettered.len();
            &&& d <= g <= f <= e
            &&& chain.subrange(0, a as int) == turned
            &&& chain.subrange(a as int, b as int) == cropped
            &&& chain.subrange(b as int, c as int) == timed
            &&& chain.subrange(c as int, d as int) == painted
            &&& g - d <= 1 && (g - d == 1 ==> text::begins(chain[d as int], "scale="@))
            &&& chain.subrange(g, f) == lettered
            &&& job.reverse ==> chain[f] == "reverse"@
            &&& chain.subrange(e, chain.len() as int) == faded
        }),
{
    let chain = command::picture_chain(job, keep_audio, width, height, fps, font, logs);
    let turned = job.orientation.filter_texts();
    let cropped = command::cropping(frame::job_crop(job, width, height));
    let timed = filters::retiming(job, fps, logs);
    let painted = filters::effects_chain(job.effects);
    let lettered = command::lettering(job.effects, font);
    let faded = filters::fades(job.effects, job::output_length(job, logs), true);
    let (w, h) = frame::after_crop(job, width, height);
    let scale = frame::scaling(
        job,
        w as int,
        h as int,
        fps,
        rates::fit_picture(job, keep_audio, logs),
    );
    let sized = match scale.filter {
        Some(f) => seq![f],
        None => Seq::empty(),
    };
    let back = filters::maybe(job.reverse, "reverse"@);
    lemma_chain_parts(job, keep_audio, width, height, fps, font, logs, sized);
    lemma_in_order(turned, cropped, timed, painted, sized, lettered, back, faded);
    if sized.len() > 0 {
        lemma_scale_is_said(job, w as int, h as int, fps, rates::fit_picture(job, keep_audio, logs));
    }
}

proof fn lemma_chain_parts(
    job: ExportJob,
    keep_audio: bool,
    width: i64,
    height: i64,
    fps: int,
    font: Option<Seq<char>>,
    logs: Seq<i64>,
    sized: Seq<Seq<char>>,
)
    requires
        ({
            let (w, h) = frame::after_crop(job, width, height);
            sized == (match frame::scaling(
                job,
                w as int,
                h as int,
                fps,
                rates::fit_picture(job, keep_audio, logs),
            ).filter {
                Some(f) => seq![f],
                None => Seq::empty(),
            })
        }),
    ensures
        command::picture_chain(job, keep_audio, width, height, fps, font, logs)
            == job.orientation.filter_texts() + command::cropping(frame::job_crop(job, width, height))
            + filters::retiming(job, fps, logs) + filters::effects_chain(job.effects) + sized
            + command::lettering(job.effects, font) + filters::maybe(job.reverse, "reverse"@) + filters::fades(
            job.effects,
            job::output_length(job, logs),
            true,
        ),
{
    let shaped = command::shaping(job, width, height, fps, logs);
    let (letters, back) = (
        command::lettering(job.effects, font),
        filters::maybe(job.reverse, "reverse"@),
    );
    let faded = filters::fades(job.effects, job::output_length(job, logs), true);
    lemma_add_on(shaped + sized, letters, back, faded);
}

proof fn lemma_add_on(a: Seq<Seq<char>>, b: Seq<Seq<char>>, c: Seq<Seq<char>>, d: Seq<Seq<char>>)
    ensures
        a + (b + c + d) == a + b + c + d,
{
    assert(a + (b + c + d) =~= a + b + c + d);
}

/// Lists one behind another are where they are put.
proof fn lemma_in_order(
    t: Seq<Seq<char>>,
    c: Seq<Seq<char>>,
    m: Seq<Seq<char>>,
    p: Seq<Seq<char>>,
    s: Seq<Seq<char>>,
    l: Seq<Seq<char>>,
    b: Seq<Seq<char>>,
    f: Seq<Seq<char>>,
)
    ensures
        ({
            let all = t + c + m + p + s + l + b + f;
            let (x, y) = ((t.len() + c.len()) as int, (t.len() + c.len() + m.len()) as int);
            let (z, e) = (y + p.len(), all.len() - f.len());
            let g = e - b.len();
            &&& all.subrange(0, t.len() as int) == t
            &&& all.subrange(t.len() as int, x) == c
            &&& all.subrange(x, y) == m
            &&& all.subrange(y, z) == p
            &&& g - l.len() == z + s.len()
            &&& s.len() > 0 ==> all[z] == s[0]
            &&& all.subrange(g - l.len(), g) == l
            &&& b.len() > 0 ==> all[g] == b[0]
            &&& all.subrange(e, all.len() as int) == f
        }),
{
    let all = t + c + m + p + s + l + b + f;
    let (x, y) = ((t.len() + c.len()) as int, (t.len() + c.len() + m.len()) as int);
    let (z, e) = (y + p.len(), all.len() - f.len());
    let g = e - b.len();
    assert(all.subrange(0, t.len() as int) =~= t);
    assert(all.subrange(t.len() as int, x) =~= c);
    assert(all.subrange(x, y) =~= m);
    assert(all.subrange(y, z) =~= p);
    assert(all.subrange(g - l.len(), g) =~= l);
    assert(all.subrange(e, all.len() as int) =~= f);
}

proof fn lemma_scale_is_said(job: ExportJob, w: int, h: int, fps: int, fit: Option<int>)
    ensures
        frame::scaling(job, w, h, fps, fit).filter matches Some(f) ==> text::begins(f, "scale="@),
{
    reveal_strlit("scale=");
    reveal_strlit("scale=-2:");
    if let Some(f) = frame::scaling(job, w, h, fps, fit).filter {
        assert(f.take(6) =~= "scale="@);
    }
}

/// The scale that is said is the scale that is meant: one side by its number, the other left to
/// follow it.
pub proof fn law_scale_is_said(job: ExportJob, width: i64, height: i64, fps: int, fit: Option<int>)
    requires
        width >= 2,
        height >= 2,
    ensures
        frame::scaling(job, width as int, height as int, fps, fit).filter matches Some(f) ==> exists|
            n: Seq<char>,
            v: int,
        | #[trigger]
            says_whole(n, v) && ((f == "scale=-2:"@ + n && v == frame::scaling(
                job,
                width as int,
                height as int,
                fps,
                fit,
            ).height) || (f == "scale="@ + n + ":-2"@ && v == frame::scaling(
                job,
                width as int,
                height as int,
                fps,
                fit,
            ).width)),
{
    let s = frame::scaling(job, width as int, height as int, fps, fit);
    frame::law_never_upscales(job, width, height, fps, fit);
    frame::lemma_scaled_positive(job, width, height, fps, fit);
    if s.filter is Some {
        lemma_says_whole(s.width);
        lemma_says_whole(s.height);
        assert(says_whole(number::signed(s.width), s.width));
        assert(says_whole(number::signed(s.height), s.height));
    }
}

/// Loudness is brought to -16 LUFS, peaks to -1.5 and the range to 11.
pub proof fn law_loudness_is_said()
    ensures
        filters::loudnorm() == "loudnorm=I=-16:TP=-1.5:LRA=11"@,
{
}

/// A preview is a copy that plays anywhere and is never wider than 960 pixels; a probe asks for the
/// container and its streams.
pub proof fn law_previews_and_probes_are_asked_for(path: Seq<char>, output: Seq<char>)
    ensures
        asks(sysutil::proxy_command(path, output), "-i"@, path),
        asks(sysutil::proxy_command(path, output), "-vf"@, "scale=w='min(960,iw)':h=-2"@),
        asks(sysutil::proxy_command(path, output), "-c:v"@, "libx264"@),
        asks(sysutil::proxy_command(path, output), "-preset"@, "ultrafast"@),
        asks(sysutil::proxy_command(path, output), "-crf"@, "28"@),
        asks(sysutil::proxy_command(path, output), "-pix_fmt"@, "yuv420p"@),
        asks(sysutil::proxy_command(path, output), "-c:a"@, "aac"@),
        asks(sysutil::proxy_command(path, output), "-b:a"@, "128k"@),
        asks(sysutil::proxy_command(path, output), "-movflags"@, "+faststart"@),
        sysutil::proxy_command(path, output).contains("-y"@),
        sysutil::proxy_command(path, output).last() == output,
        asks(sysutil::probe_command(path), "-print_format"@, "json"@),
        sysutil::probe_command(path).contains("-show_format"@),
        sysutil::probe_command(path).contains("-show_streams"@),
        sysutil::probe_command(path).last() == path,
{
    let (p, q) = (sysutil::proxy_command(path, output), sysutil::probe_command(path));
    assert(p[3] == "-y"@);
    assert(p[4] == "-i"@ && p[4int + 1] == path);
    assert(p[6] == "-vf"@ && p[6int + 1] == "scale=w='min(960,iw)':h=-2"@);
    assert(p[8] == "-c:v"@ && p[8int + 1] == "libx264"@);
    assert(p[10] == "-preset"@ && p[10int + 1] == "ultrafast"@);
    assert(p[12] == "-crf"@ && p[12int + 1] == "28"@);
    assert(p[14] == "-pix_fmt"@ && p[14int + 1] == "yuv420p"@);
    assert(p[16] == "-c:a"@ && p[16int + 1] == "aac"@);
    assert(p[18] == "-b:a"@ && p[18int + 1] == "128k"@);
    assert(p[20] == "-movflags"@ && p[20int + 1] == "+faststart"@);
    assert(q[2] == "-print_format"@ && q[2int + 1] == "json"@);
    assert(q[4] == "-show_format"@ && q[5] == "-show_streams"@);
}

/// What a text in a filter graph stands for: a backslash takes the character behind it as it is.
pub open spec fn taken(s: Seq<char>) -> Seq<char>
    decreases s.len(),
{
    if s.len() == 0 {
        Seq::empty()
    } else if s[0] == '\\' && s.len() > 1 {
        seq![s[1]] + taken(s.skip(2))
    } else {
        seq![s[0]] + taken(s.skip(1))
    }
}

/// A path with its slashes all leaning forward.
pub open spec fn forward(path: Seq<char>) -> Seq<char> {
    path.map_values(
        |c: char|
            if c == '\\' {
                '/'
            } else {
                c
            },
    )
}

/// A path that is quoted for a filter graph stands for itself, its slashes leaning forward, and
/// stands between single quotes.
pub proof fn law_a_quoted_path_stands_for_itself(path: Seq<char>)
    ensures
        taken(filters::graph_chars(path)) == forward(path),
        filters::quoted_path(path) == seq!['\''] + filters::graph_chars(path) + seq!['\''],
    decreases path.len(),
{
    lemma_taken(path, Seq::empty());
    assert(filters::graph_chars(path) + Seq::empty() =~= filters::graph_chars(path));
    assert(forward(path) + taken(Seq::empty()) =~= forward(path));
}

proof fn lemma_taken(path: Seq<char>, rest: Seq<char>)
    ensures
        taken(filters::graph_chars(path) + rest) == forward(path) + taken(rest),
    decreases path.len(),
{
    if path.len() == 0 {
        assert(filters::graph_chars(path) + rest =~= rest);
        assert(forward(path) + taken(rest) =~= taken(rest));
    } else {
        let (front, c) = (path.drop_last(), path.last());
        let tail = filters::graph_char(c) + rest;
        lemma_taken(front, tail);
        assert(filters::graph_chars(path) + rest =~= filters::graph_chars(front) + tail);
        if c == ':' {
            assert(tail.skip(2) =~= rest);
        } else {
            assert(tail.skip(1) =~= rest);
        }
        let own = if c == '\\' {
            '/'
        } else {
            c
        };
        assert(taken(tail) == seq![own] + taken(rest));
        assert(forward(path) =~= forward(front).push(own));
        assert(forward(front) + (seq![own] + taken(rest)) =~= forward(path) + taken(rest));
    }
}

/// The overlay keeps the same distance from whichever edge it is put at, a part of the frame's
/// height, and stands in the middle otherwise.
pub proof fn law_overlay_keeps_its_margin(x: TextAnchorX, y: TextAnchorY)
    ensures
        ({
            let margin = "h*0.04"@;
            &&& filters::across(x) == match x {
                TextAnchorX::Left => "x="@ + margin,
                TextAnchorX::Center => "x=(w-text_w)/2"@,
                TextAnchorX::Right => "x=w-text_w-"@ + margin,
            }
            &&& filters::down(y) == match y {
                TextAnchorY::Top => "y="@ + margin,
                TextAnchorY::Middle => "y=(h-text_h)/2"@,
                TextAnchorY::Bottom => "y=h-text_h-"@ + margin,
            }
        }),
{
    reveal_strlit("h*0.04");
    reveal_strlit("x=");
    reveal_strlit("y=");
    reveal_strlit("x=w-text_w-");
    reveal_strlit("y=h-text_h-");
    reveal_strlit("x=h*0.04");
    reveal_strlit("y=h*0.04");
    reveal_strlit("x=w-text_w-h*0.04");
    reveal_strlit("y=h-text_h-h*0.04");
    let margin = "h*0.04"@;
    assert(filters::across(TextAnchorX::Left) =~= "x="@ + margin);
    assert(filters::down(TextAnchorY::Top) =~= "y="@ + margin);
    assert(filters::across(TextAnchorX::Right) =~= "x=w-text_w-"@ + margin);
    assert(filters::down(TextAnchorY::Bottom) =~= "y=h-text_h-"@ + margin);
}

} // verus!
