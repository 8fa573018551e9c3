//! The filter graph's parts: retiming, sound, the quick effects and the text overlay.

use vstd::prelude::*;
use vstd::string::*;

use crate::job;
use crate::job::{output_duration, ramp_segments, Effects, ExportJob, TextAnchorX, TextAnchorY, TextOverlay};
use crate::number;
use crate::number::{fmt_num, fmt_ratio, fmt_time, is_change, ONE};
use crate::ramp;
use crate::ramp::{audio_stages, has_ramp, setpts_expression, AUDIO_STEP_SECONDS};
use crate::tempo;
use crate::tempo::atempo_chain;
use crate::text;
use crate::text::{chars_of, joined_to, small_char};

verus! {

broadcast use {crate::text::texts_push, crate::text::texts_add};

/// A list of at most one filter.
pub open spec fn maybe(present: bool, filter: Seq<char>) -> Seq<Seq<char>> {
    if present {
        seq![filter]
    } else {
        Seq::empty()
    }
}

// --- Retiming ---

/// The filters that change a job's timing: one division at a single speed, a nested expression
/// under a curve, and nothing where neither changes it. A curve leaves its frames unevenly
/// spaced, so it also needs its frame rate settled.
pub open spec fn retiming(job: ExportJob, fps: int, logs: Seq<i64>) -> Seq<Seq<char>> {
    let segs = job::job_segments(job);
    if ramp::ramped(job.ramp@) && segs.len() > 0 {
        seq!["setpts='("@ + ramp::nested(segs, logs, 0) + ")/TB'"@] + maybe(
            fps > 0,
            "fps="@ + number::num_text(fps),
        )
    } else {
        maybe(number::changes(job.speed as int), "setpts=PTS/"@ + number::num_text(job.speed as int))
    }
}

pub fn retime_filters(job: &ExportJob, fps: i64, logs: &[i64]) -> (r: Vec<String>)
    ensures
        text::texts(r@) == retiming(*job, fps as int, logs@),
{
    let mut parts: Vec<String> = Vec::new();
    if has_ramp(job.ramp.as_slice()) {
        let segs = ramp_segments(job);
        if let Some(expr) = setpts_expression(segs.as_slice(), logs) {
            // Quoted inside the graph: the expression is full of commas, which separate filters.
            let mut filter = joined_to("setpts='(", expr);
            filter.append(")/TB'");
            parts.push(filter);
            if fps > 0 {
                parts.push(joined_to("fps=", fmt_num(fps)));
            }
            proof {
                assert(text::texts(parts@) =~= retiming(*job, fps as int, logs@));
            }
            return parts;
        }
    }
    if is_change(job.speed) {
        parts.push(joined_to("setpts=PTS/", fmt_num(job.speed)));
    }
    proof {
        assert(text::texts(parts@) =~= retiming(*job, fps as int, logs@));
    }
    parts
}

// --- Fades ---

/// The fades of a clip `total` long. They are timed on the finished clip; one that would outlast
/// it is cut to it.
pub open spec fn fades(fx: Effects, total: int, video: bool) -> Seq<Seq<char>> {
    let name = if video {
        "fade"@
    } else {
        "afade"@
    };
    let cut = |seconds: i64|
        if seconds < total {
            seconds as int
        } else {
            total
        };
    if total <= 0 {
        Seq::empty()
    } else {
        (match fx.fade_in {
            Some(seconds) => maybe(
                seconds > 0,
                name + "=t=in:st=0:d="@ + number::time_text(cut(seconds)),
            ),
            None => Seq::empty(),
        }) + (match fx.fade_out {
            Some(seconds) => maybe(
                seconds > 0,
                name + "=t=out:st="@ + number::time_text(total - cut(seconds)) + ":d="@
                    + number::time_text(cut(seconds)),
            ),
            None => Seq::empty(),
        })
    }
}

/// Fades go after reverse, the last filter that changes what "the start" means.
pub fn fade_filters(fx: &Effects, total: i64, video: bool) -> (r: Vec<String>)
    ensures
        text::texts(r@) == fades(*fx, total as int, video),
{
    let mut parts: Vec<String> = Vec::new();
    if total <= 0 {
        proof {
            assert(text::texts(parts@) =~= fades(*fx, total as int, video));
        }
        return parts;
    }
    let name = if video {
        "fade"
    } else {
        "afade"
    };
    if let Some(seconds) = fx.fade_in {
        if seconds > 0 {
            let length: i64 = if seconds < total {
                seconds
            } else {
                total
            };
            let mut filter = name.to_string();
            filter.append("=t=in:st=0:d=");
            filter.append(fmt_time(length).as_str());
            parts.push(filter);
        }
    }
    if let Some(seconds) = fx.fade_out {
        if seconds > 0 {
            let length: i64 = if seconds < total {
                seconds
            } else {
                total
            };
            let mut filter = name.to_string();
            filter.append("=t=out:st=");
            filter.append(fmt_time(total - length).as_str());
            filter.append(":d=");
            filter.append(fmt_time(length).as_str());
            parts.push(filter);
        }
    }
    proof {
        assert(text::texts(parts@) =~= fades(*fx, total as int, video));
    }
    parts
}

// --- Sound ---

/// One pass of loudness normalisation, at the level streaming services settle around, with a
/// true-peak ceiling so that its own gain cannot clip.
pub open spec fn loudnorm() -> Seq<char> {
    "loudnorm=I=-16:TP=-1.5:LRA=11"@
}

pub fn loudnorm_filter() -> (r: String)
    ensures
        r@ == loudnorm(),
{
    "loudnorm=I=-16:TP=-1.5:LRA=11".to_string()
}

/// The tempo stages of a job: those of its curve, or of its single speed where there is no curve
/// or it is too wide for `atempo` to follow.
pub open spec fn tempo_stages(job: ExportJob) -> Seq<Seq<char>> {
    let stages = ramp::sounded(job::job_segments(job), AUDIO_STEP_SECONDS as int);
    if ramp::ramped(job.ramp@) && stages is Some {
        stages->0
    } else {
        tempo::chain(job.speed as int)
    }
}

/// The padding that makes a curve's sound end with its picture: `atempo` comes out a little
/// short, so the sound is padded and cut, and its timestamps rebuilt from the sample count.
pub open spec fn padding(job: ExportJob, logs: Seq<i64>) -> Seq<Seq<char>> {
    let length = job::output_length(job, logs);
    if ramp::ramped(job.ramp@) && length > 0 {
        seq!["apad"@, "atrim=end="@ + number::time_text(length), "asetpts=N/SR/TB"@]
    } else {
        Seq::empty()
    }
}

/// The sound's filters. `areverse` has to buffer the entire stream before it can emit a sample,
/// so it comes after what shortens it; a gain of 1 is left out, because it would still cost a
/// resample pass.
pub open spec fn sound_filters(job: ExportJob, logs: Seq<i64>) -> Seq<Seq<char>> {
    tempo_stages(job) + maybe(job.normalize, loudnorm()) + maybe(
        number::changes(job.volume as int),
        "volume="@ + number::num_text(job.volume as int),
    ) + maybe(job.reverse, "areverse"@) + fades(job.effects, job::output_length(job, logs), false)
        + padding(job, logs)
}

fn tempo_filters(job: &ExportJob) -> (r: Vec<String>)
    ensures
        text::texts(r@) == tempo_stages(*job),
{
    if has_ramp(job.ramp.as_slice()) {
        let segs = ramp_segments(job);
        if let Some(stages) = audio_stages(segs.as_slice(), AUDIO_STEP_SECONDS) {
            return stages;
        }
    }
    atempo_chain(job.speed)
}

fn push_maybe(parts: &mut Vec<String>, present: bool, filter: String)
    ensures
        text::texts(final(parts)@) == text::texts(old(parts)@) + maybe(present, filter@),
{
    let ghost spelled = filter@;
    if present {
        parts.push(filter);
    }
    proof {
        assert(text::texts(parts@) =~= text::texts(old(parts)@) + maybe(present, spelled));
    }
}

fn push_padding(parts: &mut Vec<String>, job: &ExportJob, length: i64, logs: &[i64])
    requires
        length == job::output_length(*job, logs@),
    ensures
        text::texts(final(parts)@) == text::texts(old(parts)@) + padding(*job, logs@),
{
    if has_ramp(job.ramp.as_slice()) && length > 0 {
        parts.push("apad".to_string());
        parts.push(joined_to("atrim=end=", fmt_time(length)));
        parts.push("asetpts=N/SR/TB".to_string());
    }
    proof {
        assert(text::texts(parts@) =~= text::texts(old(parts)@) + padding(*job, logs@));
    }
}

pub fn audio_filters(job: &ExportJob, logs: &[i64]) -> (r: Vec<String>)
    ensures
        text::texts(r@) == sound_filters(*job, logs@),
{
    let mut parts = tempo_filters(job);
    push_maybe(&mut parts, job.normalize, loudnorm_filter());
    push_maybe(&mut parts, is_change(job.volume), joined_to("volume=", fmt_num(job.volume)));
    push_maybe(&mut parts, job.reverse, "areverse".to_string());
    let length = output_duration(job, logs);
    let mut faded = fade_filters(&job.effects, length, false);
    parts.append(&mut faded);
    push_padding(&mut parts, job, length, logs);
    parts
}

// --- Quick effects ---

/// Two dials, one filter, one pass.
pub open spec fn colour_filter(contrast: Option<i64>, saturation: Option<i64>) -> Seq<Seq<char>> {
    match (contrast, saturation) {
        (Some(c), Some(s)) => seq![
            "eq=contrast="@ + number::num_text(c as int) + ":saturation="@ + number::num_text(s as int),
        ],
        (Some(c), None) => seq!["eq=contrast="@ + number::num_text(c as int)],
        (None, Some(s)) => seq!["eq=saturation="@ + number::num_text(s as int)],
        (None, None) => Seq::empty(),
    }
}

/// One setting under a name, where it is switched on.
pub open spec fn dial(name: Seq<char>, setting: Option<i64>) -> Seq<Seq<char>> {
    match setting {
        Some(v) => seq![name + number::num_text(v as int)],
        None => Seq::empty(),
    }
}

/// Brightness multiplies across RGB; the additive kind would not match a preview.
pub open spec fn brightness_filter(setting: Option<i64>) -> Seq<Seq<char>> {
    match setting {
        Some(k) => {
            let n = number::num_text(k as int);
            seq!["colorchannelmixer=rr="@ + n + ":gg="@ + n + ":bb="@ + n]
        },
        None => Seq::empty(),
    }
}

/// A strength of 1 is a lens angle of two fifths of pi: heavy, but still a picture. Angles are in
/// units of 10^-12.
pub const VIGNETTE_MAX_ANGLE: i128 = 1_256_637_061_436;

pub open spec fn vignette_filter(setting: Option<i64>) -> Seq<Seq<char>> {
    match setting {
        Some(strength) => seq![
            "vignette=angle="@ + number::ratio_text(
                strength * VIGNETTE_MAX_ANGLE,
                1_000_000_000_000_000_000_000,
            ),
        ],
        None => Seq::empty(),
    }
}

/// Everything that repaints the pixels, in the order a preview applies the same list. The text
/// overlay is not here: it goes in after the scale.
pub open spec fn effects_chain(fx: Effects) -> Seq<Seq<char>> {
    brightness_filter(fx.brightness) + colour_filter(fx.contrast, fx.saturation) + dial(
        "hue=h="@,
        fx.hue,
    ) + dial("gblur=sigma="@, fx.blur) + vignette_filter(fx.vignette)
}

fn push_dial(parts: &mut Vec<String>, name: &str, setting: Option<i64>)
    ensures
        text::texts(final(parts)@) == text::texts(old(parts)@) + dial(name@, setting),
{
    if let Some(v) = setting {
        parts.push(joined_to(name, fmt_num(v)));
    }
    proof {
        assert(text::texts(parts@) =~= text::texts(old(parts)@) + dial(name@, setting));
    }
}

fn push_colour(parts: &mut Vec<String>, contrast: Option<i64>, saturation: Option<i64>)
    ensures
        text::texts(final(parts)@) == text::texts(old(parts)@) + colour_filter(contrast, saturation),
{
    match (contrast, saturation) {
        (Some(c), Some(s)) => {
            let mut filter = joined_to("eq=contrast=", fmt_num(c));
            filter.append(":saturation=");
            filter.append(fmt_num(s).as_str());
            parts.push(filter);
        },
        (Some(c), None) => {
            parts.push(joined_to("eq=contrast=", fmt_num(c)));
        },
        (None, Some(s)) => {
            parts.push(joined_to("eq=saturation=", fmt_num(s)));
        },
        (None, None) => {},
    }
    proof {
        assert(text::texts(parts@) =~= text::texts(old(parts)@) + colour_filter(contrast, saturation));
    }
}

pub fn effect_filters(fx: &Effects) -> (r: Vec<String>)
    ensures
        text::texts(r@) == effects_chain(*fx),
{
    let mut parts: Vec<String> = Vec::new();
    if let Some(k) = fx.brightness {
        let n = fmt_num(k);
        let mut filter = "colorchannelmixer=rr=".to_string();
        filter.append(n.as_str());
        filter.append(":gg=");
        filter.append(n.as_str());
        filter.append(":bb=");
        filter.append(n.as_str());
        parts.push(filter);
    }
    proof {
        assert(text::texts(parts@) =~= brightness_filter(fx.brightness));
    }
    push_colour(&mut parts, fx.contrast, fx.saturation);
    push_dial(&mut parts, "hue=h=", fx.hue);
    push_dial(&mut parts, "gblur=sigma=", fx.blur);
    let ghost before = text::texts(parts@);
    if let Some(strength) = fx.vignette {
        let angle = fmt_ratio(strength as i128 * VIGNETTE_MAX_ANGLE, 1_000_000_000_000_000_000_000);
        parts.push(joined_to("vignette=angle=", angle));
    }
    proof {
        assert(text::texts(parts@) =~= before + vignette_filter(fx.vignette));
    }
    parts
}

// --- The text overlay ---

/// The file the overlay's text is read from, named relative to the working directory FFmpeg is
/// given: a path in a filter graph has to be quoted, and a quoted path cannot express an
/// apostrophe, which a user name is allowed to contain.
pub const OVERLAY_TEXT_FILE: &'static str = "flipperclipper-overlay.txt";

/// A path character for a filter graph: forward slashes, and the drive colon escaped.
pub open spec fn graph_char(c: char) -> Seq<char> {
    if c == '\\' {
        seq!['/']
    } else if c == ':' {
        seq!['\\', ':']
    } else {
        seq![c]
    }
}

pub open spec fn graph_chars(s: Seq<char>) -> Seq<char>
    decreases s.len(),
{
    if s.len() == 0 {
        Seq::empty()
    } else {
        graph_chars(s.drop_last()) + graph_char(s.last())
    }
}

pub open spec fn quoted_path(path: Seq<char>) -> Seq<char> {
    seq!['\''] + graph_chars(path) + seq!['\'']
}

/// A path for a filter graph: quoted, forward slashes, drive colon escaped.
pub fn graph_path(path: &str) -> (r: String)
    ensures
        r@ == quoted_path(path@),
{
    let chars = chars_of(path);
    let mut out = String::new();
    out.push('\'');
    let mut i: usize = 0;
    while i < chars.len()
        invariant
            i <= chars.len(),
            chars@ == path@,
            out@ == seq!['\''] + graph_chars(chars@.take(i as int)),
        decreases chars.len() - i,
    {
        let c = chars[i];
        proof {
            assert(chars@.take(i + 1).drop_last() =~= chars@.take(i as int));
            assert(chars@.take(i + 1).last() == c);
        }
        if c == '\\' {
            out.push('/');
        } else if c == ':' {
            out.push('\\');
            out.push(':');
        } else {
            out.push(c);
        }
        i += 1;
        proof {
            assert(out@ =~= seq!['\''] + graph_chars(chars@.take(i as int)));
        }
    }
    out.push('\'');
    proof {
        assert(chars@.take(chars.len() as int) =~= chars@);
        assert(out@ =~= quoted_path(path@));
    }
    out
}

/// The digits of a colour: what follows the '#', where there is one.
pub open spec fn colour_digits(hex: Seq<char>) -> Seq<char> {
    if hex.len() > 0 && hex[0] == '#' {
        hex.skip(1)
    } else {
        hex
    }
}

/// FFmpeg's spelling of a colour; white where there is no reading it.
pub open spec fn colour_text(hex: Seq<char>) -> Seq<char> {
    let body = colour_digits(hex);
    if body.len() == 6 && (forall|i: int| 0 <= i < 6 ==> text::hex_digit(#[trigger] body[i])) {
        "0x"@ + text::small_text(body)
    } else {
        "0xffffff"@
    }
}

/// FFmpeg wants 0xRRGGBB; the colour input hands over '#rrggbb'.
pub fn ffmpeg_color(hex: &str) -> (r: String)
    ensures
        r@ == colour_text(hex@),
{
    let chars = chars_of(hex);
    let start: usize = if chars.len() > 0 && chars[0] == '#' {
        1
    } else {
        0
    };
    let ghost body = colour_digits(hex@);
    proof {
        assert(body =~= chars@.skip(start as int));
    }
    if chars.len() - start != 6 {
        return "0xffffff".to_string();
    }
    let mut out = "0x".to_string();
    let mut i: usize = 0;
    proof {
        assert(out@ =~= "0x"@ + text::small_text(body).take(0));
    }
    while i < 6
        invariant
            i <= 6,
            start <= 1,
            chars.len() == start + 6,
            body == chars@.skip(start as int),
            body == colour_digits(hex@),
            forall|k: int| 0 <= k < i ==> text::hex_digit(#[trigger] body[k]),
            out@ == "0x"@ + text::small_text(body).take(i as int),
        decreases 6 - i,
    {
        let c = chars[start + i];
        proof {
            assert(c == body[i as int]);
        }
        if !(('0' <= c && c <= '9') || ('a' <= c && c <= 'f') || ('A' <= c && c <= 'F')) {
            return "0xffffff".to_string();
        }
        out.push(small_char(c));
        i += 1;
        proof {
            assert(out@ =~= "0x"@ + text::small_text(body).take(i as int));
        }
    }
    proof {
        assert(text::small_text(body).take(6) =~= text::small_text(body));
    }
    out
}

/// The overlay's place across the frame. The gap at an edge is a fraction of the height on both
/// axes, so the margin looks square.
pub open spec fn across(anchor: TextAnchorX) -> Seq<char> {
    match anchor {
        TextAnchorX::Left => "x=h*0.04"@,
        TextAnchorX::Center => "x=(w-text_w)/2"@,
        TextAnchorX::Right => "x=w-text_w-h*0.04"@,
    }
}

/// The overlay's place down the frame.
pub open spec fn down(anchor: TextAnchorY) -> Seq<char> {
    match anchor {
        TextAnchorY::Top => "y=h*0.04"@,
        TextAnchorY::Middle => "y=(h-text_h)/2"@,
        TextAnchorY::Bottom => "y=h-text_h-h*0.04"@,
    }
}

/// The text overlay's filter. The words themselves are not in it: they are read from
/// [`OVERLAY_TEXT_FILE`], and `expansion=none` stops FFmpeg from parsing them.
pub open spec fn drawtext(overlay: TextOverlay, font: Seq<char>) -> Seq<char> {
    "drawtext=fontfile="@ + quoted_path(font) + ":textfile="@ + OVERLAY_TEXT_FILE@
        + ":expansion=none:fontsize=h*"@ + number::num_text(overlay.size as int) + ":fontcolor="@
        + colour_text(overlay.color@) + "@"@ + number::num_text(overlay.opacity as int) + ":"@ + across(
        overlay.anchor_x,
    ) + ":"@ + down(overlay.anchor_y) + (if overlay.boxed {
        ":box=1:boxcolor=black@0.45:boxborderw=h*0.012"@
    } else {
        Seq::empty()
    })
}

pub fn drawtext_filter(overlay: &TextOverlay, font: &str) -> (r: String)
    ensures
        r@ == drawtext(*overlay, font@),
{
    let x = match overlay.anchor_x {
        TextAnchorX::Left => "x=h*0.04",
        TextAnchorX::Center => "x=(w-text_w)/2",
        TextAnchorX::Right => "x=w-text_w-h*0.04",
    };
    let y = match overlay.anchor_y {
        TextAnchorY::Top => "y=h*0.04",
        TextAnchorY::Middle => "y=(h-text_h)/2",
        TextAnchorY::Bottom => "y=h-text_h-h*0.04",
    };
    let mut out = joined_to("drawtext=fontfile=", graph_path(font));
    out.append(":textfile=");
    out.append(OVERLAY_TEXT_FILE);
    out.append(":expansion=none:fontsize=h*");
    out.append(fmt_num(overlay.size).as_str());
    out.append(":fontcolor=");
    out.append(ffmpeg_color(overlay.color.as_str()).as_str());
    out.append("@");
    out.append(fmt_num(overlay.opacity).as_str());
    out.append(":");
    out.append(x);
    out.append(":");
    out.append(y);
    if overlay.boxed {
        out.append(":box=1:boxcolor=black@0.45:boxborderw=h*0.012");
    }
    proof {
        assert(out@ =~= drawtext(*overlay, font@));
    }
    out
}

/// A colour of six digits keeps them in their order, in small letters, with or without its mark;
/// anything of another length is white.
pub proof fn law_a_colour_keeps_its_digits(body: Seq<char>, i: int)
    requires
        forall|j: int| 0 <= j < body.len() ==> text::hex_digit(#[trigger] body[j]),
        0 <= i < body.len(),
    ensures
        colour_text(seq!['#'] + body) == colour_text(body),
        body.len() == 6 ==> {
            &&& colour_text(body).len() == 8
            &&& colour_text(body)[0] == '0' && colour_text(body)[1] == 'x'
            &&& colour_text(body)[2 + i] == if 'A' <= body[i] <= 'F' {
                (body[i] as u32 + 32) as char
            } else {
                body[i]
            }
        },
        body.len() != 6 ==> colour_text(body) == "0xffffff"@,
{
    reveal_strlit("0x");
    assert(text::hex_digit(body[0]));
    assert((seq!['#'] + body).skip(1) =~= body);
}

} // verus!
