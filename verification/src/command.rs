//! The FFmpeg command of an export.
//!
//! The command is built exactly as the job says, including combinations that the export checks
//! refuse, so every part of it can be looked at on its own.

use vstd::prelude::*;
use vstd::string::*;

use crate::filters;
use crate::filters::{audio_filters, drawtext_filter, effect_filters, fade_filters, retime_filters};
use crate::frame;
use crate::frame::{crop_of, cropped_size, gif_caps, scale_step};
use crate::job;
use crate::job::{output_duration, source_duration, turned_size, Effects, ExportFormat, ExportJob, QualityPreset, Rect};
use crate::number;
use crate::number::{fmt_time, push_decimal, signed_text};
use crate::ramp;
use crate::rates;
use crate::rates::{audio_only_kbps, cq_for, crf_for, fit_audio_kbps, fit_video_kbps, video_kbps_for, video_path_audio_kbps, vp9_crf_for};
use crate::tempo;
use crate::text;
use crate::text::{chars_end, chars_of, contains, join, joined_to, small_chars};

verus! {

broadcast use {crate::text::texts_push, crate::text::texts_add};

// --- Small pieces ---

/// `-movflags` is private to one family of containers: FFmpeg aborts on it anywhere else.
pub open spec fn mp4_family(output: Seq<char>) -> bool {
    let lower = text::small_text(output);
    text::ends(lower, ".mp4"@) || text::ends(lower, ".m4v"@) || text::ends(lower, ".mov"@)
        || text::ends(lower, ".m4a"@)
}

pub fn is_mp4_family(output: &str) -> (r: bool)
    ensures
        r == mp4_family(output@),
{
    let lower = small_chars(&chars_of(output));
    chars_end(&lower, ".mp4") || chars_end(&lower, ".m4v") || chars_end(&lower, ".mov") || chars_end(
        &lower,
        ".m4a",
    )
}

#[derive(Debug, Clone, Copy, PartialEq, Eq, Structural)]
pub enum EncoderFamily {
    X264,
    Nvenc,
    Qsv,
    Amf,
}

/// Which vendor an encoder's name stands for.
pub open spec fn family(encoder: Seq<char>) -> EncoderFamily {
    if text::holds(encoder, "nvenc"@) {
        EncoderFamily::Nvenc
    } else if text::holds(encoder, "qsv"@) {
        EncoderFamily::Qsv
    } else if text::holds(encoder, "amf"@) {
        EncoderFamily::Amf
    } else {
        EncoderFamily::X264
    }
}

pub fn encoder_family(encoder: &str) -> (r: EncoderFamily)
    ensures
        r == family(encoder@),
{
    if contains(encoder, "nvenc") {
        EncoderFamily::Nvenc
    } else if contains(encoder, "qsv") {
        EncoderFamily::Qsv
    } else if contains(encoder, "amf") {
        EncoderFamily::Amf
    } else {
        EncoderFamily::X264
    }
}

/// A rate in kilobits, as FFmpeg spells it.
pub open spec fn kilobits(kbps: int) -> Seq<char> {
    number::signed(kbps) + "k"@
}

fn rate_text(kbps: i64) -> (r: String)
    ensures
        r@ == kilobits(kbps as int),
{
    let mut out = signed_text(kbps);
    out.append("k");
    out
}

fn double_rate_text(kbps: i64) -> (r: String)
    requires
        kbps > 0,
    ensures
        r@ == kilobits(2 * kbps),
{
    let mut out = String::new();
    push_decimal(&mut out, 2 * kbps as u128);
    out.append("k");
    proof {
        assert(out@ =~= kilobits(2 * kbps));
    }
    out
}

fn put(args: &mut Vec<String>, flag: &str)
    ensures
        text::texts(final(args)@) == text::texts(old(args)@).push(flag@),
{
    args.push(flag.to_string());
}

fn put_two(args: &mut Vec<String>, flag: &str, value: &str)
    ensures
        text::texts(final(args)@) == text::texts(old(args)@).push(flag@).push(value@),
{
    args.push(flag.to_string());
    args.push(value.to_string());
}

fn put_text(args: &mut Vec<String>, flag: &str, value: String)
    ensures
        text::texts(final(args)@) == text::texts(old(args)@).push(flag@).push(value@),
{
    args.push(flag.to_string());
    args.push(value);
}

/// A list of filters under a flag, where there are any.
pub open spec fn filtering(flag: Seq<char>, filters: Seq<Seq<char>>) -> Seq<Seq<char>> {
    if filters.len() == 0 {
        Seq::empty()
    } else {
        seq![flag, text::joined(filters, ","@)]
    }
}

fn put_filters(args: &mut Vec<String>, flag: &str, filters: &Vec<String>)
    ensures
        text::texts(final(args)@) == text::texts(old(args)@) + filtering(
            flag@,
            text::texts(filters@),
        ),
{
    if filters.len() > 0 {
        put_text(args, flag, join(filters, ","));
    }
    proof {
        assert(text::texts(args@) =~= text::texts(old(args)@) + filtering(
            flag@,
            text::texts(filters@),
        ));
    }
}

// --- The beginning and the end ---

/// How every command begins. `-ss` in front of `-i` seeks to the nearest keyframe and decodes
/// forward: quick on a long file and still frame-accurate. Its companion is `-t` on the same side
/// and deliberately not `-to`, which would be measured on the retimed timeline.
pub open spec fn opening(job: ExportJob) -> Seq<Seq<char>> {
    seq![
        "-y"@,
        "-progress"@,
        "pipe:1"@,
        "-nostats"@,
        "-ss"@,
        number::time_text(job.in_point as int),
        "-t"@,
        number::time_text(job::source_length(job)),
        "-i"@,
        job.input@,
    ]
}

/// How every command to a container that needs its index in front ends, and every other: with the
/// file to write.
pub open spec fn closing(job: ExportJob) -> Seq<Seq<char>> {
    if mp4_family(job.output@) {
        seq!["-movflags"@, "+faststart"@, job.output@]
    } else {
        seq![job.output@]
    }
}

fn put_opening(args: &mut Vec<String>, job: &ExportJob)
    ensures
        text::texts(final(args)@) == text::texts(old(args)@) + opening(*job),
{
    put(args, "-y");
    put_two(args, "-progress", "pipe:1");
    put(args, "-nostats");
    put_text(args, "-ss", fmt_time(job.in_point));
    put_text(args, "-t", fmt_time(source_duration(job)));
    put_two(args, "-i", job.input.as_str());
    proof {
        assert(text::texts(args@) =~= text::texts(old(args)@) + opening(*job));
    }
}

fn put_closing(args: &mut Vec<String>, job: &ExportJob)
    ensures
        text::texts(final(args)@) == text::texts(old(args)@) + closing(*job),
{
    if is_mp4_family(job.output.as_str()) {
        put_two(args, "-movflags", "+faststart");
    }
    put(args, job.output.as_str());
    proof {
        assert(text::texts(args@) =~= text::texts(old(args)@) + closing(*job));
    }
}

/// The streams that are kept. Explicit maps rather than default stream selection: a phone file
/// often carries a stream the container cannot hold.
pub open spec fn maps(keep_audio: bool) -> Seq<Seq<char>> {
    if keep_audio {
        seq!["-map"@, "0:v:0"@, "-map"@, "0:a:0?"@]
    } else {
        seq!["-map"@, "0:v:0"@]
    }
}

fn put_maps(args: &mut Vec<String>, keep_audio: bool)
    ensures
        text::texts(final(args)@) == text::texts(old(args)@) + maps(keep_audio),
{
    put_two(args, "-map", "0:v:0");
    if keep_audio {
        put_two(args, "-map", "0:a:0?");
    }
    proof {
        assert(text::texts(args@) =~= text::texts(old(args)@) + maps(keep_audio));
    }
}

// --- Stream copies ---

/// A stream copy: no filters. `make_zero` rebases the timestamps after the keyframe seek.
pub open spec fn lossless_command(job: ExportJob, keep_audio: bool) -> Seq<Seq<char>> {
    opening(job) + maps(keep_audio) + seq!["-c"@, "copy"@, "-avoid_negative_ts"@, "make_zero"@]
        + closing(job)
}

fn lossless_args(job: &ExportJob, keep_audio: bool) -> (r: Vec<String>)
    ensures
        text::texts(r@) == lossless_command(*job, keep_audio),
{
    let mut args: Vec<String> = Vec::new();
    put_opening(&mut args, job);
    put_maps(&mut args, keep_audio);
    put_two(&mut args, "-c", "copy");
    put_two(&mut args, "-avoid_negative_ts", "make_zero");
    put_closing(&mut args, job);
    proof {
        assert(text::texts(args@) =~= lossless_command(*job, keep_audio));
    }
    args
}

// --- Sound alone ---

/// The sound codec of a format, and its rate where it takes one. Vorbis is natively variable, but
/// a size target needs a rate the arithmetic can hold it to.
pub open spec fn sound_codec(job: ExportJob, logs: Seq<i64>) -> Seq<Seq<char>> {
    let rate = kilobits(rates::sound_rate(job, logs));
    match job.format {
        ExportFormat::Mp3 => seq!["-c:a"@, "libmp3lame"@, "-b:a"@, rate],
        ExportFormat::M4a => seq!["-c:a"@, "aac"@, "-b:a"@, rate],
        ExportFormat::Opus => seq!["-c:a"@, "libopus"@, "-b:a"@, rate],
        ExportFormat::Ogg => if rates::fit_sound(job, logs) is Some {
            seq!["-c:a"@, "libvorbis"@, "-b:a"@, rate]
        } else {
            seq![
                "-c:a"@,
                "libvorbis"@,
                "-q:a"@,
                match job.quality {
                    QualityPreset::High => "7"@,
                    QualityPreset::Small => "3"@,
                    _ => "5"@,
                },
            ]
        },
        ExportFormat::Wav => seq!["-c:a"@, "pcm_s16le"@],
        ExportFormat::Flac => seq!["-c:a"@, "flac"@],
        _ => Seq::empty(),
    }
}

/// A file of sound alone. `-vn` beside an audio-only map keeps cover art out of the container; a
/// muted job still has its sound here, since the file would otherwise hold nothing.
pub open spec fn sound_command(job: ExportJob, logs: Seq<i64>) -> Seq<Seq<char>> {
    opening(job) + seq!["-vn"@, "-map"@, "0:a:0"@] + filtering(
        "-af"@,
        filters::sound_filters(job, logs),
    ) + sound_codec(job, logs) + closing(job)
}

/// The sound codec's arguments, for a format of sound alone.
pub fn push_audio_codec(args: &mut Vec<String>, job: &ExportJob, logs: &[i64])
    requires
        job.format.audio(),
    ensures
        text::texts(final(args)@) == text::texts(old(args)@) + sound_codec(*job, logs@),
{
    let kbps = audio_only_kbps(job, logs);
    match job.format {
        ExportFormat::Mp3 => {
            put_two(args, "-c:a", "libmp3lame");
            put_text(args, "-b:a", rate_text(kbps));
        },
        ExportFormat::M4a => {
            put_two(args, "-c:a", "aac");
            put_text(args, "-b:a", rate_text(kbps));
        },
        ExportFormat::Opus => {
            put_two(args, "-c:a", "libopus");
            put_text(args, "-b:a", rate_text(kbps));
        },
        ExportFormat::Ogg => {
            put_two(args, "-c:a", "libvorbis");
            if fit_audio_kbps(job, logs).is_some() {
                put_text(args, "-b:a", rate_text(kbps));
            } else {
                let level = match job.quality {
                    QualityPreset::High => "7",
                    QualityPreset::Small => "3",
                    _ => "5",
                };
                put_two(args, "-q:a", level);
            }
        },
        // No rate for these two: one is a fixed function of the sample rate, the other lossless.
        ExportFormat::Wav => {
            put_two(args, "-c:a", "pcm_s16le");
        },
        ExportFormat::Flac => {
            put_two(args, "-c:a", "flac");
        },
        _ => {},
    }
    proof {
        assert(text::texts(args@) =~= text::texts(old(args)@) + sound_codec(*job, logs@));
    }
}

fn sound_args(job: &ExportJob, logs: &[i64]) -> (r: Vec<String>)
    requires
        job.format.audio(),
    ensures
        text::texts(r@) == sound_command(*job, logs@),
{
    let mut args: Vec<String> = Vec::new();
    put_opening(&mut args, job);
    put(&mut args, "-vn");
    put_two(&mut args, "-map", "0:a:0");
    proof {
        assert(text::texts(args@) =~= opening(*job) + seq!["-vn"@, "-map"@, "0:a:0"@]);
    }
    put_filters(&mut args, "-af", &audio_filters(job, logs));
    push_audio_codec(&mut args, job, logs);
    put_closing(&mut args, job);
    args
}

// --- The picture's filters ---

/// The crop filter, where there is a crop.
pub open spec fn cropping(crop: Option<Rect>) -> Seq<Seq<char>> {
    match crop {
        Some(r) => seq![
            "crop="@ + number::signed(r.w as int) + ":"@ + number::signed(r.h as int) + ":"@
                + number::signed(r.x as int) + ":"@ + number::signed(r.y as int),
        ],
        None => Seq::empty(),
    }
}

/// The text overlay's filter, where there is text and a font to draw it with.
pub open spec fn lettering(fx: Effects, font: Option<Seq<char>>) -> Seq<Seq<char>> {
    match (fx.text, font) {
        (Some(overlay), Some(f)) => seq![filters::drawtext(overlay, f)],
        _ => Seq::empty(),
    }
}

/// What a font path spells, where there is one.
pub open spec fn font_text(font: Option<&str>) -> Option<Seq<char>> {
    match font {
        Some(f) => Some(f@),
        None => None,
    }
}

/// What the picture goes through first: turning, so that the crop rectangle lands on the frame it
/// was drawn on; the crop, so that the rest only sees the surviving pixels; then timing and
/// effects.
pub open spec fn shaping(job: ExportJob, width: i64, height: i64, fps: int, logs: Seq<i64>) -> Seq<
    Seq<char>,
> {
    job.orientation.filter_texts() + cropping(frame::job_crop(job, width, height))
        + filters::retiming(job, fps, logs) + filters::effects_chain(job.effects)
}

/// What the picture goes through last. Reverse holds every frame in memory before it emits the
/// first, so it comes after whatever shrinks them; a fade belongs at the start of what will be
/// watched, so it comes after reverse.
pub open spec fn finishing(job: ExportJob, font: Option<Seq<char>>, logs: Seq<i64>) -> Seq<Seq<char>> {
    lettering(job.effects, font) + filters::maybe(job.reverse, "reverse"@) + filters::fades(
        job.effects,
        job::output_length(job, logs),
        true,
    )
}

fn shaping_filters(job: &ExportJob, width: i64, height: i64, fps: i64, logs: &[i64]) -> (r: Vec<String>)
    ensures
        text::texts(r@) == shaping(*job, width, height, fps as int, logs@),
{
    let mut parts = job.orientation.filters();
    if let Some(r) = crop_of(job, width, height) {
        let mut filter = joined_to("crop=", signed_text(r.w));
        filter.append(":");
        filter.append(signed_text(r.h).as_str());
        filter.append(":");
        filter.append(signed_text(r.x).as_str());
        filter.append(":");
        filter.append(signed_text(r.y).as_str());
        parts.push(filter);
    }
    proof {
        assert(text::texts(parts@) =~= job.orientation.filter_texts() + cropping(
            frame::job_crop(*job, width, height),
        ));
    }
    let mut retimed = retime_filters(job, fps, logs);
    parts.append(&mut retimed);
    let mut effects = effect_filters(&job.effects);
    parts.append(&mut effects);
    parts
}

fn finishing_filters(job: &ExportJob, font: Option<&str>, logs: &[i64]) -> (r: Vec<String>)
    ensures
        text::texts(r@) == finishing(*job, font_text(font), logs@),
{
    let mut parts: Vec<String> = Vec::new();
    if let Some(overlay) = &job.effects.text {
        if let Some(f) = font {
            parts.push(drawtext_filter(overlay, f));
        }
    }
    if job.reverse {
        parts.push("reverse".to_string());
    }
    proof {
        assert(text::texts(parts@) =~= lettering(job.effects, font_text(font)) + filters::maybe(
            job.reverse,
            "reverse"@,
        ));
    }
    let mut faded = fade_filters(&job.effects, output_duration(job, logs), true);
    parts.append(&mut faded);
    parts
}

// --- Gif ---

/// The end of a gif's graph: its own frame rate and width caps, and a palette made from the
/// pixels that change.
pub open spec fn palette(quality: QualityPreset) -> Seq<char> {
    "fps="@ + number::signed(frame::gif_limits(quality).0) + ",scale='min(iw,"@ + number::signed(
        frame::gif_limits(quality).1,
    )
        + ")':-2:flags=lanczos,split[a][b];[a]palettegen=stats_mode=diff[p];[b][p]paletteuse=dither=bayer:bayer_scale=5"@
}

/// A gif. The palette needs a two-branch graph, so the whole pipeline is one `-filter_complex`;
/// the graph's output is then the only mapped stream. `-loop 0` plays it forever.
pub open spec fn gif_command(
    job: ExportJob,
    width: i64,
    height: i64,
    fps: int,
    font: Option<Seq<char>>,
    logs: Seq<i64>,
) -> Seq<Seq<char>> {
    let chain = shaping(job, width, height, fps, logs) + finishing(job, font, logs) + seq![
        palette(job.quality),
    ];
    opening(job) + seq!["-filter_complex"@, text::joined(chain, ","@), "-loop"@, "0"@, job.output@]
}

fn gif_args(
    job: &ExportJob,
    width: i64,
    height: i64,
    fps: i64,
    font: Option<&str>,
    logs: &[i64],
) -> (r: Vec<String>)
    ensures
        text::texts(r@) == gif_command(*job, width, height, fps as int, font_text(font), logs@),
{
    let mut chain = shaping_filters(job, width, height, fps, logs);
    let mut finish = finishing_filters(job, font, logs);
    chain.append(&mut finish);
    let (fps_cap, width_cap) = gif_caps(job.quality);
    let mut last = joined_to("fps=", signed_text(fps_cap));
    last.append(",scale='min(iw,");
    last.append(signed_text(width_cap).as_str());
    last.append(
        ")':-2:flags=lanczos,split[a][b];[a]palettegen=stats_mode=diff[p];[b][p]paletteuse=dither=bayer:bayer_scale=5",
    );
    chain.push(last);
    proof {
        assert(text::texts(chain@) =~= shaping(*job, width, height, fps as int, logs@) + finishing(
            *job,
            font_text(font),
            logs@,
        ) + seq![palette(job.quality)]);
    }
    let mut args: Vec<String> = Vec::new();
    put_opening(&mut args, job);
    put_text(&mut args, "-filter_complex", join(&chain, ","));
    put_two(&mut args, "-loop", "0");
    put(&mut args, job.output.as_str());
    proof {
        assert(text::texts(args@) =~= gif_command(
            *job,
            width,
            height,
            fps as int,
            font_text(font),
            logs@,
        ));
    }
    args
}

// --- The video containers ---

/// A held rate: one-pass constrained variable rate, the peak pinned so that a busy scene cannot
/// blow the budget, and a buffer of twice the rate.
pub open spec fn held_rate(kbps: int) -> Seq<Seq<char>> {
    seq![
        "-b:v"@,
        kilobits(kbps),
        "-maxrate"@,
        kilobits(kbps),
        "-bufsize"@,
        kilobits(2 * kbps),
    ]
}

fn put_held_rate(args: &mut Vec<String>, kbps: i64)
    requires
        kbps > 0,
    ensures
        text::texts(final(args)@) == text::texts(old(args)@) + held_rate(kbps as int),
{
    put_text(args, "-b:v", rate_text(kbps));
    put_text(args, "-maxrate", rate_text(kbps));
    put_text(args, "-bufsize", double_rate_text(kbps));
    proof {
        assert(text::texts(args@) =~= text::texts(old(args)@) + held_rate(kbps as int));
    }
}

/// The picture codec of a webm, which is always software. With no rate held, `-b:v 0` is what
/// lets the quality decide.
pub open spec fn webm_codec(quality: QualityPreset, kbps: Option<int>) -> Seq<Seq<char>> {
    seq!["-c:v"@, "libvpx-vp9"@] + (match kbps {
        Some(k) => held_rate(k),
        None => seq![
            "-b:v"@,
            "0"@,
            "-crf"@,
            number::signed(rates::by_preset(quality, 30, 34, 38)),
        ],
    }) + seq!["-row-mt"@, "1"@, "-cpu-used"@, "4"@]
}

/// Constant quality, which each vendor spells its own way.
pub open spec fn constant_quality(of: EncoderFamily, quality: QualityPreset) -> Seq<Seq<char>> {
    let cq = number::signed(rates::by_preset(quality, 19, 24, 29));
    match of {
        EncoderFamily::X264 => seq![
            "-preset"@,
            "veryfast"@,
            "-crf"@,
            number::signed(rates::by_preset(quality, 18, 23, 28)),
        ],
        EncoderFamily::Nvenc => seq!["-rc"@, "vbr"@, "-cq"@, cq, "-b:v"@, "0"@],
        EncoderFamily::Qsv => seq!["-global_quality"@, cq],
        EncoderFamily::Amf => seq!["-rc"@, "cqp"@, "-qp_i"@, cq, "-qp_p"@, cq, "-qp_b"@, cq],
    }
}

/// The picture codec of every other container.
pub open spec fn encoder_codec(encoder: Seq<char>, quality: QualityPreset, kbps: Option<int>) -> Seq<
    Seq<char>,
> {
    seq!["-c:v"@, encoder] + (match kbps {
        Some(k) => if family(encoder) == EncoderFamily::X264 {
            held_rate(k) + seq!["-preset"@, "veryfast"@]
        } else {
            held_rate(k)
        },
        None => constant_quality(family(encoder), quality),
    })
}

fn put_webm_codec(args: &mut Vec<String>, quality: QualityPreset, kbps: Option<i64>)
    requires
        kbps matches Some(k) ==> k > 0,
    ensures
        text::texts(final(args)@) == text::texts(old(args)@) + webm_codec(quality, frame::wide(kbps)),
{
    put_two(args, "-c:v", "libvpx-vp9");
    match kbps {
        Some(k) => {
            put_held_rate(args, k);
        },
        None => {
            put_two(args, "-b:v", "0");
            put_text(args, "-crf", signed_text(vp9_crf_for(quality)));
        },
    }
    put_two(args, "-row-mt", "1");
    put_two(args, "-cpu-used", "4");
    proof {
        assert(text::texts(args@) =~= text::texts(old(args)@) + webm_codec(
            quality,
            frame::wide(kbps),
        ));
    }
}

fn put_constant_quality(args: &mut Vec<String>, of: EncoderFamily, quality: QualityPreset)
    ensures
        text::texts(final(args)@) == text::texts(old(args)@) + constant_quality(of, quality),
{
    match of {
        EncoderFamily::X264 => {
            put_two(args, "-preset", "veryfast");
            put_text(args, "-crf", signed_text(crf_for(quality)));
        },
        EncoderFamily::Nvenc => {
            put_two(args, "-rc", "vbr");
            put_text(args, "-cq", signed_text(cq_for(quality)));
            put_two(args, "-b:v", "0");
        },
        EncoderFamily::Qsv => {
            put_text(args, "-global_quality", signed_text(cq_for(quality)));
        },
        EncoderFamily::Amf => {
            put_two(args, "-rc", "cqp");
            put_text(args, "-qp_i", signed_text(cq_for(quality)));
            put_text(args, "-qp_p", signed_text(cq_for(quality)));
            put_text(args, "-qp_b", signed_text(cq_for(quality)));
        },
    }
    proof {
        assert(text::texts(args@) =~= text::texts(old(args)@) + constant_quality(of, quality));
    }
}

fn put_encoder_codec(args: &mut Vec<String>, encoder: &str, quality: QualityPreset, kbps: Option<i64>)
    requires
        kbps matches Some(k) ==> k > 0,
    ensures
        text::texts(final(args)@) == text::texts(old(args)@) + encoder_codec(
            encoder@,
            quality,
            frame::wide(kbps),
        ),
{
    put_two(args, "-c:v", encoder);
    let of = encoder_family(encoder);
    match kbps {
        Some(k) => {
            put_held_rate(args, k);
            if of == EncoderFamily::X264 {
                put_two(args, "-preset", "veryfast");
            }
        },
        None => {
            put_constant_quality(args, of, quality);
        },
    }
    proof {
        assert(text::texts(args@) =~= text::texts(old(args)@) + encoder_codec(
            encoder@,
            quality,
            frame::wide(kbps),
        ));
    }
}

/// The picture's whole filter chain. Text goes in after the scale, so that the letters are
/// rasterised at the size they will be read at.
pub open spec fn picture_chain(
    job: ExportJob,
    keep_audio: bool,
    width: i64,
    height: i64,
    fps: int,
    font: Option<Seq<char>>,
    logs: Seq<i64>,
) -> Seq<Seq<char>> {
    let (w, h) = frame::after_crop(job, width, height);
    let scale = frame::scaling(
        job,
        w as int,
        h as int,
        fps,
        rates::fit_picture(job, keep_audio, logs),
    );
    shaping(job, width, height, fps, logs) + (match scale.filter {
        Some(f) => seq![f],
        None => Seq::empty(),
    }) + finishing(job, font, logs)
}

/// The sound's codec beside a picture.
pub open spec fn side_sound(job: ExportJob, keep_audio: bool) -> Seq<Seq<char>> {
    if keep_audio {
        seq![
            "-c:a"@,
            if job.format is Webm {
                "libopus"@
            } else {
                "aac"@
            },
            "-b:a"@,
            kilobits(rates::side_rate(job)),
        ]
    } else {
        Seq::empty()
    }
}

/// A video file. The pixel format is the one that every player accepts.
pub open spec fn video_command(
    job: ExportJob,
    encoder: Seq<char>,
    keep_audio: bool,
    width: i64,
    height: i64,
    fps: int,
    font: Option<Seq<char>>,
    logs: Seq<i64>,
) -> Seq<Seq<char>> {
    let kbps = rates::picture_rate(job, keep_audio, logs);
    opening(job) + maps(keep_audio) + filters::maybe(job.mute, "-an"@) + filtering(
        "-vf"@,
        picture_chain(job, keep_audio, width, height, fps, font, logs),
    ) + (if keep_audio {
        filtering("-af"@, filters::sound_filters(job, logs))
    } else {
        Seq::empty()
    }) + (if job.format is Webm {
        webm_codec(job.quality, kbps)
    } else {
        encoder_codec(encoder, job.quality, kbps)
    }) + side_sound(job, keep_audio) + seq!["-pix_fmt"@, "yuv420p"@] + closing(job)
}

fn picture_filters(
    job: &ExportJob,
    keep_audio: bool,
    width: i64,
    height: i64,
    fps: i64,
    font: Option<&str>,
    logs: &[i64],
) -> (r: Vec<String>)
    ensures
        text::texts(r@) == picture_chain(
            *job,
            keep_audio,
            width,
            height,
            fps as int,
            font_text(font),
            logs@,
        ),
{
    let (w, h) = cropped_size(job, width, height);
    let fit = fit_video_kbps(job, keep_audio, logs);
    let scale = scale_step(job, w, h, fps, fit);
    proof {
        assert(frame::wide(fit) == rates::fit_picture(*job, keep_audio, logs@));
    }
    let mut parts = shaping_filters(job, width, height, fps, logs);
    let ghost scale_view = scale@;
    if let Some(filter) = scale.filter {
        parts.push(filter);
    }
    proof {
        assert(text::texts(parts@) =~= shaping(*job, width, height, fps as int, logs@) + (
        match scale_view.filter {
            Some(f) => seq![f],
            None => Seq::empty(),
        }));
    }
    let mut finish = finishing_filters(job, font, logs);
    parts.append(&mut finish);
    parts
}

fn put_side_sound(args: &mut Vec<String>, job: &ExportJob, keep_audio: bool)
    ensures
        text::texts(final(args)@) == text::texts(old(args)@) + side_sound(*job, keep_audio),
{
    if keep_audio {
        if job.format == ExportFormat::Webm {
            put_two(args, "-c:a", "libopus");
        } else {
            put_two(args, "-c:a", "aac");
        }
        put_text(args, "-b:a", rate_text(video_path_audio_kbps(job)));
    }
    proof {
        assert(text::texts(args@) =~= text::texts(old(args)@) + side_sound(*job, keep_audio));
    }
}

fn video_args(
    job: &ExportJob,
    encoder: &str,
    keep_audio: bool,
    width: i64,
    height: i64,
    fps: i64,
    font: Option<&str>,
    logs: &[i64],
) -> (r: Vec<String>)
    ensures
        text::texts(r@) == video_command(
            *job,
            encoder@,
            keep_audio,
            width,
            height,
            fps as int,
            font_text(font),
            logs@,
        ),
{
    let kbps = video_kbps_for(job, keep_audio, logs);
    let mut args: Vec<String> = Vec::new();
    put_opening(&mut args, job);
    put_maps(&mut args, keep_audio);
    if job.mute {
        put(&mut args, "-an");
    }
    proof {
        assert(frame::wide(kbps) == rates::picture_rate(*job, keep_audio, logs@));
        assert(text::texts(args@) =~= opening(*job) + maps(keep_audio) + filters::maybe(
            job.mute,
            "-an"@,
        ));
    }
    put_filters(
        &mut args,
        "-vf",
        &picture_filters(job, keep_audio, width, height, fps, font, logs),
    );
    let ghost before = text::texts(args@);
    if keep_audio {
        put_filters(&mut args, "-af", &audio_filters(job, logs));
    }
    proof {
        assert(text::texts(args@) =~= before + (if keep_audio {
            filtering("-af"@, filters::sound_filters(*job, logs@))
        } else {
            Seq::empty()
        }));
    }
    if job.format == ExportFormat::Webm {
        put_webm_codec(&mut args, job.quality, kbps);
    } else {
        put_encoder_codec(&mut args, encoder, job.quality, kbps);
    }
    put_side_sound(&mut args, job, keep_audio);
    let ghost coded = text::texts(args@);
    put_two(&mut args, "-pix_fmt", "yuv420p");
    proof {
        assert(text::texts(args@) =~= coded + seq!["-pix_fmt"@, "yuv420p"@]);
    }
    put_closing(&mut args, job);
    args
}

// --- The command ---

/// The whole command of a job. `width`, `height` and `fps` are those of the source in display
/// orientation; everything below reasons about the turned frame, which is the one the user was
/// looking at.
pub open spec fn arguments(
    job: ExportJob,
    encoder: Seq<char>,
    has_audio: bool,
    width: i64,
    height: i64,
    fps: int,
    font: Option<Seq<char>>,
    logs: Seq<i64>,
) -> Seq<Seq<char>> {
    let keep_audio = has_audio && !job.mute;
    let (w, h) = job::turned(job, width, height);
    if job.lossless {
        lossless_command(job, keep_audio)
    } else if job.format.audio() {
        sound_command(job, logs)
    } else if job.format is Gif {
        gif_command(job, w, h, fps, font, logs)
    } else {
        video_command(job, encoder, keep_audio, w, h, fps, font, logs)
    }
}

/// The whole command of a job. `font` is which font file this machine has: without one the text
/// overlay is left out rather than guessed at. `logs` belongs to the pieces of the job's curve.
pub fn build_args(
    job: &ExportJob,
    encoder: &str,
    has_audio: bool,
    width: i64,
    height: i64,
    fps: i64,
    font: Option<&str>,
    logs: &[i64],
) -> (r: Vec<String>)
    ensures
        text::texts(r@) == arguments(
            *job,
            encoder@,
            has_audio,
            width,
            height,
            fps as int,
            font_text(font),
            logs@,
        ),
{
    let keep_audio = has_audio && !job.mute;
    let (w, h) = turned_size(job, width, height);
    if job.lossless {
        return lossless_args(job, keep_audio);
    }
    if job.format.is_audio() {
        return sound_args(job, logs);
    }
    if job.format == ExportFormat::Gif {
        return gif_args(job, w, h, fps, font, logs);
    }
    video_args(job, encoder, keep_audio, w, h, fps, font, logs)
}

// --- What holds of every command ---

/// Every command begins the same way, with the seek and the length on the input's side, and ends
/// with the file to write.
pub proof fn law_every_command_is_framed(
    job: ExportJob,
    encoder: Seq<char>,
    has_audio: bool,
    width: i64,
    height: i64,
    fps: int,
    font: Option<Seq<char>>,
    logs: Seq<i64>,
)
    ensures
        framed(arguments(job, encoder, has_audio, width, height, fps, font, logs), job),
{
    let keep = has_audio && !job.mute;
    let (w, h) = job::turned(job, width, height);
    if job.lossless {
        lemma_lossless_framed(job, keep);
    } else if job.format.audio() {
        lemma_sound_framed(job, logs);
    } else if job.format is Gif {
        lemma_gif_framed(job, w, h, fps, font, logs);
    } else {
        lemma_video_framed(job, encoder, keep, w, h, fps, font, logs);
    }
}

/// A command that begins with the opening and ends with the file to write.
pub open spec fn framed(args: Seq<Seq<char>>, job: ExportJob) -> bool {
    &&& args.len() > 10
    &&& args.take(10) == opening(job)
    &&& args.last() == job.output@
}

proof fn lemma_lossless_framed(job: ExportJob, keep: bool)
    ensures
        framed(lossless_command(job, keep), job),
{
    let c = seq!["-c"@, "copy"@, "-avoid_negative_ts"@, "make_zero"@];
    lemma_regroup3(opening(job), maps(keep), c);
    lemma_framed(job, maps(keep) + c, closing(job));
}

proof fn lemma_sound_framed(job: ExportJob, logs: Seq<i64>)
    ensures
        framed(sound_command(job, logs), job),
{
    let b = seq!["-vn"@, "-map"@, "0:a:0"@];
    let c = filtering("-af"@, filters::sound_filters(job, logs));
    let d = sound_codec(job, logs);
    lemma_regroup3(opening(job), b, c);
    lemma_regroup3(opening(job), b + c, d);
    lemma_framed(job, b + c + d, closing(job));
}

proof fn lemma_gif_framed(
    job: ExportJob,
    w: i64,
    h: i64,
    fps: int,
    font: Option<Seq<char>>,
    logs: Seq<i64>,
)
    ensures
        framed(gif_command(job, w, h, fps, font, logs), job),
{
    let chain = shaping(job, w, h, fps, logs) + finishing(job, font, logs) + seq![
        palette(job.quality),
    ];
    let graph = text::joined(chain, ","@);
    let b = seq!["-filter_complex"@, graph, "-loop"@, "0"@];
    let z = seq![job.output@];
    assert(seq!["-filter_complex"@, graph, "-loop"@, "0"@, job.output@] =~= b + z);
    lemma_regroup3(opening(job), b, z);
    lemma_framed(job, b, z);
}

proof fn lemma_video_framed(
    job: ExportJob,
    encoder: Seq<char>,
    keep: bool,
    w: i64,
    h: i64,
    fps: int,
    font: Option<Seq<char>>,
    logs: Seq<i64>,
)
    ensures
        framed(video_command(job, encoder, keep, w, h, fps, font, logs), job),
{
    let kbps = rates::picture_rate(job, keep, logs);
    let b = maps(keep);
    let c = filters::maybe(job.mute, "-an"@);
    let d = filtering("-vf"@, picture_chain(job, keep, w, h, fps, font, logs));
    let e = if keep {
        filtering("-af"@, filters::sound_filters(job, logs))
    } else {
        Seq::empty()
    };
    let f = if job.format is Webm {
        webm_codec(job.quality, kbps)
    } else {
        encoder_codec(encoder, job.quality, kbps)
    };
    let g = side_sound(job, keep);
    let i = seq!["-pix_fmt"@, "yuv420p"@];
    lemma_regroup3(opening(job), b, c);
    lemma_regroup3(opening(job), b + c, d);
    lemma_regroup3(opening(job), b + c + d, e);
    lemma_regroup3(opening(job), b + c + d + e, f);
    lemma_regroup3(opening(job), b + c + d + e + f, g);
    lemma_regroup3(opening(job), b + c + d + e + f + g, i);
    lemma_framed(job, b + c + d + e + f + g + i, closing(job));
}

proof fn lemma_regroup3(a: Seq<Seq<char>>, b: Seq<Seq<char>>, c: Seq<Seq<char>>)
    ensures
        a + b + c == a + (b + c),
{
    assert(a + b + c =~= a + (b + c));
}

proof fn lemma_framed(job: ExportJob, b: Seq<Seq<char>>, c: Seq<Seq<char>>)
    requires
        c.len() > 0,
        c.last() == job.output@,
    ensures
        framed(opening(job) + b + c, job),
{
    assert((opening(job) + b + c).take(10) =~= opening(job));
}

/// The words of a text overlay never reach the command.
pub proof fn law_overlay_words_stay_out(
    job: ExportJob,
    other: ExportJob,
    words: String,
    encoder: Seq<char>,
    has_audio: bool,
    width: i64,
    height: i64,
    fps: int,
    font: Option<Seq<char>>,
    logs: Seq<i64>,
)
    requires
        job.effects.text is Some,
        other == (ExportJob {
            effects: Effects {
                text: Some(job::TextOverlay { text: words, ..job.effects.text->0 }),
                ..job.effects
            },
            ..job
        }),
    ensures
        arguments(job, encoder, has_audio, width, height, fps, font, logs) == arguments(
            other,
            encoder,
            has_audio,
            width,
            height,
            fps,
            font,
            logs,
        ),
{
    lemma_timed_by_fields(job, other, fps, logs);
    assert(lettering(job.effects, font) == lettering(other.effects, font));
    lemma_alike_sound(job, other, fps, logs);
    lemma_alike(job, other, encoder, has_audio, width, height, fps, font, logs);
}

/// A curve that never leaves 1 is no curve.
pub proof fn law_flat_curve_is_no_curve(
    job: ExportJob,
    other: ExportJob,
    encoder: Seq<char>,
    has_audio: bool,
    width: i64,
    height: i64,
    fps: int,
    font: Option<Seq<char>>,
    logs: Seq<i64>,
)
    requires
        !ramp::ramped(job.ramp@),
        other == (ExportJob { ramp: other.ramp, ..job }),
        other.ramp@.len() == 0,
    ensures
        arguments(job, encoder, has_audio, width, height, fps, font, logs) == arguments(
            other,
            encoder,
            has_audio,
            width,
            height,
            fps,
            font,
            logs,
        ),
{
    lemma_timed_flat(job, other, fps, logs);
    lemma_alike_sound(job, other, fps, logs);
    lemma_alike(job, other, encoder, has_audio, width, height, fps, font, logs);
}

/// A change of speed leaves the part of the source that is read alone.
pub proof fn law_speed_leaves_the_trim_alone(job: ExportJob, other: ExportJob)
    requires
        other == (ExportJob { speed: other.speed, ramp: other.ramp, ..job }),
    ensures
        opening(job) == opening(other),
{
}

/// The picture is reversed exactly where the clip is, and the sound, where it is kept, exactly
/// with the picture.
pub proof fn law_sound_reverses_with_the_picture(
    job: ExportJob,
    keep_audio: bool,
    width: i64,
    height: i64,
    fps: int,
    font: Option<Seq<char>>,
    logs: Seq<i64>,
)
    ensures
        picture_chain(job, keep_audio, width, height, fps, font, logs).contains("reverse"@)
            <==> job.reverse,
        filters::sound_filters(job, logs).contains("areverse"@) <==> job.reverse,
{
    let chain = picture_chain(job, keep_audio, width, height, fps, font, logs);
    let sound = filters::sound_filters(job, logs);
    if job.reverse {
        let letters = lettering(job.effects, font);
        let finish = finishing(job, font, logs);
        assert(finish[letters.len() as int] == "reverse"@);
        assert(chain[chain.len() - finish.len() + letters.len()] == "reverse"@);
        lemma_areverse(job, logs);
    } else {
        reveal_strlit("reverse");
        reveal_strlit("areverse");
        lemma_picture_starts(job, keep_audio, width, height, fps, font, logs);
        lemma_sound_starts(job, logs);
        if chain.contains("reverse"@) {
            let i = choose|i: int| 0 <= i < chain.len() && chain[i] == "reverse"@;
            assert(starts_other(chain[i], 'r', 'e'));
        }
        if sound.contains("areverse"@) {
            let i = choose|i: int| 0 <= i < sound.len() && sound[i] == "areverse"@;
            assert(starts_other(sound[i], 'a', 'r'));
        }
    }
}

proof fn lemma_areverse(job: ExportJob, logs: Seq<i64>)
    requires
        job.reverse,
    ensures
        filters::sound_filters(job, logs).contains("areverse"@),
{
    let head = filters::tempo_stages(job) + filters::maybe(job.normalize, filters::loudnorm())
        + filters::maybe(
        number::changes(job.volume as int),
        "volume="@ + number::num_text(job.volume as int),
    );
    let all = filters::sound_filters(job, logs);
    assert(all[head.len() as int] == "areverse"@);
}

/// Whether a filter's name starts otherwise than with `a` and `b`.
spec fn starts_other(filter: Seq<char>, a: char, b: char) -> bool {
    filter.len() > 1 && (filter[0] != a || filter[1] != b)
}

spec fn all_start_other(list: Seq<Seq<char>>, a: char, b: char) -> bool {
    forall|i: int| 0 <= i < list.len() ==> starts_other(#[trigger] list[i], a, b)
}

proof fn lemma_starts_together(x: Seq<Seq<char>>, y: Seq<Seq<char>>, a: char, b: char)
    requires
        all_start_other(x, a, b),
        all_start_other(y, a, b),
    ensures
        all_start_other(x + y, a, b),
{
    assert forall|i: int| 0 <= i < (x + y).len() implies starts_other(#[trigger] (x + y)[i], a, b) by {
        if i < x.len() {
            assert((x + y)[i] == x[i]);
        } else {
            assert((x + y)[i] == y[i - x.len()]);
        }
    }
}

proof fn lemma_fade_starts(fx: Effects, total: int)
    ensures
        all_start_other(filters::fades(fx, total, true), 'r', 'e'),
        all_start_other(filters::fades(fx, total, false), 'a', 'r'),
{
    reveal_strlit("fade");
    reveal_strlit("afade");
}

proof fn lemma_effect_starts(fx: Effects)
    ensures
        all_start_other(filters::effects_chain(fx), 'r', 'e'),
{
    reveal_strlit("colorchannelmixer=rr=");
    reveal_strlit("eq=contrast=");
    reveal_strlit("eq=saturation=");
    reveal_strlit("hue=h=");
    reveal_strlit("gblur=sigma=");
    reveal_strlit("vignette=angle=");
    let light = filters::brightness_filter(fx.brightness);
    let colour = filters::colour_filter(fx.contrast, fx.saturation);
    let hue = filters::dial("hue=h="@, fx.hue);
    let blur = filters::dial("gblur=sigma="@, fx.blur);
    let dark = filters::vignette_filter(fx.vignette);
    lemma_starts_together(light, colour, 'r', 'e');
    lemma_starts_together(light + colour, hue, 'r', 'e');
    lemma_starts_together(light + colour + hue, blur, 'r', 'e');
    lemma_starts_together(light + colour + hue + blur, dark, 'r', 'e');
}

proof fn lemma_shaping_starts(job: ExportJob, width: i64, height: i64, fps: int, logs: Seq<i64>)
    ensures
        all_start_other(shaping(job, width, height, fps, logs), 'r', 'e'),
{
    reveal_strlit("transpose=1");
    reveal_strlit("transpose=2");
    reveal_strlit("hflip");
    reveal_strlit("vflip");
    reveal_strlit("crop=");
    reveal_strlit("setpts='(");
    reveal_strlit("setpts=PTS/");
    reveal_strlit("fps=");
    let turned = job.orientation.filter_texts();
    let cropped = cropping(frame::job_crop(job, width, height));
    let timed = filters::retiming(job, fps, logs);
    lemma_effect_starts(job.effects);
    lemma_starts_together(turned, cropped, 'r', 'e');
    lemma_starts_together(turned + cropped, timed, 'r', 'e');
    lemma_starts_together(turned + cropped + timed, filters::effects_chain(job.effects), 'r', 'e');
}

proof fn lemma_picture_starts(
    job: ExportJob,
    keep_audio: bool,
    width: i64,
    height: i64,
    fps: int,
    font: Option<Seq<char>>,
    logs: Seq<i64>,
)
    requires
        !job.reverse,
    ensures
        all_start_other(picture_chain(job, keep_audio, width, height, fps, font, logs), 'r', 'e'),
{
    reveal_strlit("scale=");
    reveal_strlit("scale=-2:");
    reveal_strlit("drawtext=fontfile=");
    let (w, h) = frame::after_crop(job, width, height);
    let scale = frame::scaling(
        job,
        w as int,
        h as int,
        fps,
        rates::fit_picture(job, keep_audio, logs),
    );
    let sized = match scale.filter {
        Some(f) => seq![f],
        None => Seq::empty(),
    };
    let shaped = shaping(job, width, height, fps, logs);
    let letters = lettering(job.effects, font);
    let still = filters::maybe(job.reverse, "reverse"@);
    let length = job::output_length(job, logs);
    lemma_shaping_starts(job, width, height, fps, logs);
    lemma_fade_starts(job.effects, length);
    lemma_starts_together(letters, still, 'r', 'e');
    lemma_starts_together(letters + still, filters::fades(job.effects, length, true), 'r', 'e');
    lemma_starts_together(shaped, sized, 'r', 'e');
    lemma_starts_together(shaped + sized, finishing(job, font, logs), 'r', 'e');
}

proof fn lemma_tempo_starts(speed: int)
    ensures
        all_start_other(tempo::chain(speed), 'a', 'r'),
{
    reveal_strlit("atempo=2.0");
    reveal_strlit("atempo=0.5");
    reveal_strlit("atempo=");
}

proof fn lemma_stage_starts(job: ExportJob)
    ensures
        all_start_other(filters::tempo_stages(job), 'a', 'r'),
{
    lemma_tempo_starts(job.speed as int);
    let segs = job::job_segments(job);
    let step = ramp::AUDIO_STEP_SECONDS as int;
    if let Some(stages) = ramp::sounded(segs, step) {
        reveal_strlit("asendcmd=c='");
        reveal_strlit("atempo@ramp=");
        let lo = ramp::slowest(segs);
        lemma_tempo_starts(lo);
        let steady = tempo::chain(lo);
        let first = stages.take(1);
        let last = stages.skip(stages.len() - 1);
        assert(stages =~= first + steady + last);
        lemma_starts_together(first, steady, 'a', 'r');
        lemma_starts_together(first + steady, last, 'a', 'r');
    }
}

proof fn lemma_sound_starts(job: ExportJob, logs: Seq<i64>)
    requires
        !job.reverse,
    ensures
        all_start_other(filters::sound_filters(job, logs), 'a', 'r'),
{
    reveal_strlit("loudnorm=I=-16:TP=-1.5:LRA=11");
    reveal_strlit("volume=");
    reveal_strlit("apad");
    reveal_strlit("atrim=end=");
    reveal_strlit("asetpts=N/SR/TB");
    let length = job::output_length(job, logs);
    let stages = filters::tempo_stages(job);
    let evened = filters::maybe(job.normalize, filters::loudnorm());
    let gain = filters::maybe(
        number::changes(job.volume as int),
        "volume="@ + number::num_text(job.volume as int),
    );
    let still = filters::maybe(job.reverse, "areverse"@);
    let faded = filters::fades(job.effects, length, false);
    lemma_stage_starts(job);
    lemma_fade_starts(job.effects, length);
    lemma_starts_together(stages, evened, 'a', 'r');
    lemma_starts_together(stages + evened, gain, 'a', 'r');
    lemma_starts_together(stages + evened + gain, still, 'a', 'r');
    lemma_starts_together(stages + evened + gain + still, faded, 'a', 'r');
    lemma_starts_together(stages + evened + gain + still + faded, filters::padding(job, logs), 'a', 'r');
}

/// A stream copy takes nothing from the edit but its trim and whether it is muted.
pub proof fn law_stream_copy_applies_no_edit(
    job: ExportJob,
    other: ExportJob,
    encoder: Seq<char>,
    has_audio: bool,
    width: i64,
    height: i64,
    fps: int,
    font: Option<Seq<char>>,
    logs: Seq<i64>,
)
    requires
        job.lossless,
        other.lossless,
        job.input == other.input,
        job.output == other.output,
        job.in_point == other.in_point,
        job.out_point == other.out_point,
        job.mute == other.mute,
    ensures
        arguments(job, encoder, has_audio, width, height, fps, font, logs) == arguments(
            other,
            encoder,
            has_audio,
            width,
            height,
            fps,
            font,
            logs,
        ),
{
}

/// Where no sound is kept beside a picture, nothing that was set for the sound reaches the
/// command.
pub proof fn law_silent_picture_has_no_sound_settings(
    job: ExportJob,
    other: ExportJob,
    encoder: Seq<char>,
    has_audio: bool,
    width: i64,
    height: i64,
    fps: int,
    font: Option<Seq<char>>,
    logs: Seq<i64>,
)
    requires
        !has_audio || job.mute,
        !job.format.audio(),
        other == (ExportJob { volume: other.volume, normalize: other.normalize, ..job }),
    ensures
        arguments(job, encoder, has_audio, width, height, fps, font, logs) == arguments(
            other,
            encoder,
            has_audio,
            width,
            height,
            fps,
            font,
            logs,
        ),
{
    lemma_timed_by_fields(job, other, fps, logs);
    lemma_alike(job, other, encoder, has_audio, width, height, fps, font, logs);
}

/// The encoder is named in the video containers but webm, and nowhere else.
pub proof fn law_encoder_is_named_where_it_encodes(
    job: ExportJob,
    encoder: Seq<char>,
    other: Seq<char>,
    has_audio: bool,
    width: i64,
    height: i64,
    fps: int,
    font: Option<Seq<char>>,
    logs: Seq<i64>,
)
    ensures
        job.lossless || job.format.audio() || job.format is Gif || job.format is Webm ==> arguments(
            job,
            encoder,
            has_audio,
            width,
            height,
            fps,
            font,
            logs,
        ) == arguments(job, other, has_audio, width, height, fps, font, logs),
        !job.lossless && (job.format is Mp4 || job.format is Mov || job.format is Mkv) ==> arguments(
            job,
            encoder,
            has_audio,
            width,
            height,
            fps,
            font,
            logs,
        ).contains(encoder),
{
    if !job.lossless && (job.format is Mp4 || job.format is Mov || job.format is Mkv) {
        let args = arguments(job, encoder, has_audio, width, height, fps, font, logs);
        let keep_audio = has_audio && !job.mute;
        let (w, h) = job::turned(job, width, height);
        let head = opening(job) + maps(keep_audio) + filters::maybe(job.mute, "-an"@) + filtering(
            "-vf"@,
            picture_chain(job, keep_audio, w, h, fps, font, logs),
        ) + (if keep_audio {
            filtering("-af"@, filters::sound_filters(job, logs))
        } else {
            Seq::empty()
        });
        assert(args[head.len() as int + 1] == encoder);
    }
}

/// Two jobs whose timing comes out the same.
pub open spec fn timed_alike(a: ExportJob, b: ExportJob, fps: int, logs: Seq<i64>) -> bool {
    &&& job::output_length(a, logs) == job::output_length(b, logs)
    &&& filters::retiming(a, fps, logs) == filters::retiming(b, fps, logs)
    &&& filters::tempo_stages(a) == filters::tempo_stages(b)
    &&& filters::padding(a, logs) == filters::padding(b, logs)
}

/// Two jobs alike in everything but their timing and their sound's settings.
pub open spec fn set_alike(a: ExportJob, b: ExportJob, font: Option<Seq<char>>) -> bool {
    &&& a.input@ == b.input@
    &&& a.output@ == b.output@
    &&& a.in_point == b.in_point
    &&& a.out_point == b.out_point
    &&& a.orientation == b.orientation
    &&& a.crop == b.crop
    &&& a.mute == b.mute
    &&& a.reverse == b.reverse
    &&& a.format == b.format
    &&& a.quality == b.quality
    &&& a.target_mb == b.target_mb
    &&& a.lossless == b.lossless
    &&& a.output_height == b.output_height
    &&& a.video_kbps == b.video_kbps
    &&& a.effects.fade_in == b.effects.fade_in
    &&& a.effects.fade_out == b.effects.fade_out
    &&& filters::effects_chain(a.effects) == filters::effects_chain(b.effects)
    &&& lettering(a.effects, font) == lettering(b.effects, font)
}

proof fn lemma_timed_by_fields(a: ExportJob, b: ExportJob, fps: int, logs: Seq<i64>)
    requires
        a.speed == b.speed,
        a.ramp == b.ramp,
        a.in_point == b.in_point,
        a.out_point == b.out_point,
    ensures
        timed_alike(a, b, fps, logs),
{
}

proof fn lemma_timed_flat(a: ExportJob, b: ExportJob, fps: int, logs: Seq<i64>)
    requires
        !ramp::ramped(a.ramp@),
        b.ramp@.len() == 0,
        a.speed == b.speed,
        a.in_point == b.in_point,
        a.out_point == b.out_point,
    ensures
        timed_alike(a, b, fps, logs),
{
    assert(!ramp::ramped(b.ramp@));
}

proof fn lemma_alike_rates(a: ExportJob, b: ExportJob, keep: bool, logs: Seq<i64>)
    requires
        job::output_length(a, logs) == job::output_length(b, logs),
        a.quality == b.quality,
        a.target_mb == b.target_mb,
        a.format == b.format,
        a.video_kbps == b.video_kbps,
    ensures
        rates::fit_picture(a, keep, logs) == rates::fit_picture(b, keep, logs),
        rates::picture_rate(a, keep, logs) == rates::picture_rate(b, keep, logs),
        sound_codec(a, logs) == sound_codec(b, logs),
        side_sound(a, keep) == side_sound(b, keep),
{
    assert(rates::fit_sound(a, logs) == rates::fit_sound(b, logs));
    assert(rates::sound_rate(a, logs) == rates::sound_rate(b, logs));
}

proof fn lemma_alike_sound(a: ExportJob, b: ExportJob, fps: int, logs: Seq<i64>)
    requires
        timed_alike(a, b, fps, logs),
        a.normalize == b.normalize,
        a.volume == b.volume,
        a.reverse == b.reverse,
        a.effects.fade_in == b.effects.fade_in,
        a.effects.fade_out == b.effects.fade_out,
    ensures
        filters::sound_filters(a, logs) == filters::sound_filters(b, logs),
{
    let total = job::output_length(a, logs);
    assert(filters::fades(a.effects, total, false) == filters::fades(b.effects, total, false));
}

proof fn lemma_alike_filters(
    a: ExportJob,
    b: ExportJob,
    w: i64,
    h: i64,
    fps: int,
    font: Option<Seq<char>>,
    logs: Seq<i64>,
)
    requires
        timed_alike(a, b, fps, logs),
        set_alike(a, b, font),
    ensures
        shaping(a, w, h, fps, logs) == shaping(b, w, h, fps, logs),
        finishing(a, font, logs) == finishing(b, font, logs),
{
    let total = job::output_length(a, logs);
    assert(filters::fades(a.effects, total, true) == filters::fades(b.effects, total, true));
}

proof fn lemma_alike_chain(
    a: ExportJob,
    b: ExportJob,
    keep: bool,
    w: i64,
    h: i64,
    fps: int,
    font: Option<Seq<char>>,
    logs: Seq<i64>,
)
    requires
        timed_alike(a, b, fps, logs),
        set_alike(a, b, font),
    ensures
        picture_chain(a, keep, w, h, fps, font, logs) == picture_chain(b, keep, w, h, fps, font, logs),
{
    lemma_alike_filters(a, b, w, h, fps, font, logs);
    lemma_alike_rates(a, b, keep, logs);
    let (cw, ch) = frame::after_crop(a, w, h);
    let fit = rates::fit_picture(a, keep, logs);
    assert(frame::scaling(a, cw as int, ch as int, fps, fit) == frame::scaling(
        b,
        cw as int,
        ch as int,
        fps,
        fit,
    ));
}

proof fn lemma_alike_video(
    a: ExportJob,
    b: ExportJob,
    encoder: Seq<char>,
    keep: bool,
    w: i64,
    h: i64,
    fps: int,
    font: Option<Seq<char>>,
    logs: Seq<i64>,
)
    requires
        opening(a) == opening(b),
        closing(a) == closing(b),
        a.mute == b.mute,
        a.format == b.format,
        a.quality == b.quality,
        picture_chain(a, keep, w, h, fps, font, logs) == picture_chain(b, keep, w, h, fps, font, logs),
        keep ==> filters::sound_filters(a, logs) == filters::sound_filters(b, logs),
        rates::picture_rate(a, keep, logs) == rates::picture_rate(b, keep, logs),
        side_sound(a, keep) == side_sound(b, keep),
    ensures
        video_command(a, encoder, keep, w, h, fps, font, logs) == video_command(
            b,
            encoder,
            keep,
            w,
            h,
            fps,
            font,
            logs,
        ),
{
}

proof fn lemma_alike(
    a: ExportJob,
    b: ExportJob,
    encoder: Seq<char>,
    has_audio: bool,
    width: i64,
    height: i64,
    fps: int,
    font: Option<Seq<char>>,
    logs: Seq<i64>,
)
    requires
        timed_alike(a, b, fps, logs),
        set_alike(a, b, font),
        a.format.audio() || (has_audio && !a.mute) ==> filters::sound_filters(a, logs)
            == filters::sound_filters(b, logs),
    ensures
        arguments(a, encoder, has_audio, width, height, fps, font, logs) == arguments(
            b,
            encoder,
            has_audio,
            width,
            height,
            fps,
            font,
            logs,
        ),
{
    let keep = has_audio && !a.mute;
    let (w, h) = job::turned(a, width, height);
    assert(opening(a) == opening(b));
    assert(closing(a) == closing(b));
    if a.lossless {
    } else if a.format.audio() {
        lemma_alike_rates(a, b, keep, logs);
    } else if a.format is Gif {
        lemma_alike_filters(a, b, w, h, fps, font, logs);
    } else {
        lemma_alike_rates(a, b, keep, logs);
        lemma_alike_chain(a, b, keep, w, h, fps, font, logs);
        lemma_alike_video(a, b, encoder, keep, w, h, fps, font, logs);
    }
}

/// Filters are handed over under one flag, parted by commas, and where there is none there is no
/// flag either.
pub proof fn law_filters_are_handed_over_together(flag: Seq<char>, filters: Seq<Seq<char>>, last: Seq<char>)
    ensures
        filtering(flag, Seq::empty()) == Seq::<Seq<char>>::empty(),
        filtering(flag, seq![last]) == seq![flag, last],
        filters.len() > 0 ==> {
            &&& filtering(flag, filters).len() == 2
            &&& filtering(flag, filters)[0] == flag
            &&& filtering(flag, filters.push(last)) == seq![
                flag,
                filtering(flag, filters)[1] + ","@ + last,
            ]
        },
{
    if filters.len() > 0 {
        assert(filters.push(last).drop_last() =~= filters);
    }
}

/// Every encoder is told the same quality: the steps from one preset to the next are the same, and
/// the hardware encoders count one more than the software encoder.
pub proof fn law_encoders_agree_on_quality(quality: QualityPreset)
    ensures
        ({
            let crf: int = if quality is High {
                18
            } else if quality is Small {
                28
            } else {
                23
            };
            let cq = number::signed(crf + 1);
            &&& constant_quality(EncoderFamily::X264, quality)[2] == "-crf"@
            &&& constant_quality(EncoderFamily::X264, quality)[3] == number::signed(crf)
            &&& constant_quality(EncoderFamily::Nvenc, quality)[2] == "-cq"@
            &&& constant_quality(EncoderFamily::Nvenc, quality)[3] == cq
            &&& constant_quality(EncoderFamily::Qsv, quality) == seq!["-global_quality"@, cq]
            &&& forall|i: int|
                #![trigger constant_quality(EncoderFamily::Amf, quality)[i]]
                i == 3 || i == 5 || i == 7 ==> constant_quality(EncoderFamily::Amf, quality)[i] == cq
        }),
{
}

/// A file is of the family of its last ending, whatever stands before it.
pub proof fn law_the_ending_tells_the_family(stem: Seq<char>)
    ensures
        mp4_family(stem + ".mp4"@),
        mp4_family(stem + ".m4v"@),
        mp4_family(stem + ".mov"@),
        mp4_family(stem + ".m4a"@),
        mp4_family(stem + ".MP4"@),
        !mp4_family(stem + ".mkv"@),
        !mp4_family(stem + ".webm"@),
        !mp4_family(stem + ".gif"@),
        !mp4_family(stem + ".mp3"@),
{
    reveal_strlit(".mp4");
    reveal_strlit(".m4v");
    reveal_strlit(".mov");
    reveal_strlit(".m4a");
    reveal_strlit(".MP4");
    reveal_strlit(".mkv");
    reveal_strlit(".webm");
    reveal_strlit(".gif");
    reveal_strlit(".mp3");
    lemma_ending(stem, ".mp4"@, ".mp4"@);
    lemma_ending(stem, ".m4v"@, ".m4v"@);
    lemma_ending(stem, ".mov"@, ".mov"@);
    lemma_ending(stem, ".m4a"@, ".m4a"@);
    lemma_ending(stem, ".MP4"@, ".mp4"@);
    lemma_other_ending(stem + ".mkv"@, 'k', 'v');
    lemma_other_ending(stem + ".webm"@, 'b', 'm');
    lemma_other_ending(stem + ".gif"@, 'i', 'f');
    lemma_other_ending(stem + ".mp3"@, 'p', '3');
}

proof fn lemma_ending(stem: Seq<char>, written: Seq<char>, small: Seq<char>)
    requires
        text::small_text(written) =~= small,
    ensures
        text::ends(text::small_text(stem + written), small),
{
    let all = text::small_text(stem + written);
    assert(all.skip(all.len() - small.len()) =~= small) by {
        assert forall|i: int| 0 <= i < small.len() implies all[stem.len() + i] == small[i] by {
            assert(text::small_text(written)[i] == small[i]);
            assert((stem + written)[stem.len() + i] == written[i]);
        }
    }
}

proof fn lemma_other_ending(output: Seq<char>, before: char, last: char)
    requires
        output.len() >= 4,
        output[output.len() - 2] == before,
        output[output.len() - 1] == last,
        text::small(before) == before,
        text::small(last) == last,
        last != '4' || before != 'p',
        last != 'v' || (before != '4' && before != 'o'),
        last != 'a' || before != '4',
    ensures
        !mp4_family(output),
{
    reveal_strlit(".mp4");
    reveal_strlit(".m4v");
    reveal_strlit(".mov");
    reveal_strlit(".m4a");
    let lower = text::small_text(output);
    let n = lower.len() as int;
    let end = lower.skip(n - 4);
    assert(end[2] == before && end[3] == last);
    assert(".mp4"@[2] == 'p' && ".mp4"@[3] == '4');
    assert(".m4v"@[2] == '4' && ".m4v"@[3] == 'v');
    assert(".mov"@[2] == 'o' && ".mov"@[3] == 'v');
    assert(".m4a"@[2] == '4' && ".m4a"@[3] == 'a');
}

} // verus!
