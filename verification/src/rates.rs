//! How many bits a second: the quality presets' own numbers, and what a size target leaves for
//! picture and sound.

use vstd::prelude::*;

use crate::job;
use crate::job::{output_duration, ExportFormat, ExportJob, QualityPreset};
use crate::number;
use crate::number::{clamp64, div_round};

verus! {

// --- Quality presets ---

/// One number for each preset; a size target takes the middle one.
pub open spec fn by_preset(quality: QualityPreset, high: int, middle: int, small: int) -> int {
    match quality {
        QualityPreset::High => high,
        QualityPreset::Small => small,
        _ => middle,
    }
}

fn pick(quality: QualityPreset, high: i64, middle: i64, small: i64) -> (r: i64)
    ensures
        r == by_preset(quality, high as int, middle as int, small as int),
{
    match quality {
        QualityPreset::High => high,
        QualityPreset::Small => small,
        _ => middle,
    }
}

/// 18 is visually transparent for most material, 23 is the encoder's default, 28 is where a clip
/// meant for a chat window stops being worth shrinking.
pub fn crf_for(quality: QualityPreset) -> (r: i64)
    ensures
        r == by_preset(quality, 18, 23, 28),
        quality is High ==> r == 18,
        quality is Small ==> r == 28,
{
    pick(quality, 18, 23, 28)
}

/// One step higher than the x264 numbers: the vendor quantiser scales are a different curve.
pub fn cq_for(quality: QualityPreset) -> (r: i64)
    ensures
        r == by_preset(quality, 19, 24, 29),
        quality is High ==> r == 19,
        quality is Small ==> r == 29,
{
    pick(quality, 19, 24, 29)
}

/// VP9's scale runs looser than x264's for the same visual result.
pub fn vp9_crf_for(quality: QualityPreset) -> (r: i64)
    ensures
        r == by_preset(quality, 30, 34, 38),
        quality is High ==> r == 30,
        quality is Small ==> r == 38,
{
    pick(quality, 30, 34, 38)
}

pub fn audio_kbps_for(quality: QualityPreset) -> (r: i64)
    ensures
        r == by_preset(quality, 160, 128, 96),
        quality is High ==> r == 160,
        quality is Small ==> r == 96,
{
    pick(quality, 160, 128, 96)
}

// --- Size targets ---

/// The byte budget of a size target. Megabytes are decimal, which undershoots either reading of
/// "10 MB".
pub open spec fn budget(job: ExportJob) -> Option<int> {
    match job.target_mb {
        Some(mb) => if job.quality is Fit && mb > 0 {
            Some(number::nearest(mb as int, 1000))
        } else {
            None
        },
        None => None,
    }
}

/// The rate that a budget gives sound alone. A fourteenth or so of the budget is kept back for the
/// container; 32 is the lowest rate the mp3 encoder takes.
pub open spec fn fit_sound(job: ExportJob, logs: Seq<i64>) -> Option<int> {
    let length = job::output_length(job, logs);
    match budget(job) {
        Some(bytes) => if length <= 0 {
            None
        } else {
            let kbps = number::sat(number::nearest(bytes * 7_440_000, length));
            Some(if kbps < 32 {
                32
            } else {
                kbps
            })
        },
        None => None,
    }
}

/// The rate of a file of sound alone.
pub open spec fn sound_rate(job: ExportJob, logs: Seq<i64>) -> int {
    let asked = |high: int, middle: int, small: int|
        match fit_sound(job, logs) {
            Some(kbps) => kbps,
            None => by_preset(job.quality, high, middle, small),
        };
    match job.format {
        ExportFormat::Mp3 => asked(256, 192, 128),
        ExportFormat::M4a => asked(256, 160, 96),
        ExportFormat::Opus => asked(192, 128, 96),
        ExportFormat::Ogg => asked(224, 160, 112),
        ExportFormat::Wav => 1536,
        ExportFormat::Flac => 900,
        _ => 0,
    }
}

/// The rate of the sound beside a picture: webm carries opus at a flat 128k, aac keeps its dial.
pub open spec fn side_rate(job: ExportJob) -> int {
    if job.format is Webm {
        128
    } else {
        by_preset(job.quality, 160, 128, 96)
    }
}

/// The rate that a budget leaves the picture once the sound has had its share.
pub open spec fn fit_picture(job: ExportJob, keep_audio: bool, logs: Seq<i64>) -> Option<int> {
    let length = job::output_length(job, logs);
    let sound = if keep_audio {
        side_rate(job) * length
    } else {
        0
    };
    match budget(job) {
        Some(bytes) => {
            let kbps = if length > 0 {
                number::sat(number::nearest(bytes * 7_440_000 - sound, length))
            } else {
                0
            };
            Some(if kbps < 100 {
                100
            } else {
                kbps
            })
        },
        None => None,
    }
}

/// The rate the picture is held to, if any: a size target's, or else one the job names.
pub open spec fn picture_rate(job: ExportJob, keep_audio: bool, logs: Seq<i64>) -> Option<int> {
    match fit_picture(job, keep_audio, logs) {
        Some(kbps) => Some(kbps),
        None => match job.video_kbps {
            Some(kbps) => if kbps > 0 {
                Some(kbps as int)
            } else {
                None
            },
            None => None,
        },
    }
}

pub fn target_bytes_for(job: &ExportJob) -> (r: Option<u64>)
    ensures
        r is Some <==> budget(*job) is Some,
        r matches Some(bytes) ==> bytes == budget(*job)->0 && bytes <= 10_000_000_000_000_000,
{
    if job.quality != QualityPreset::Fit {
        return None;
    }
    match job.target_mb {
        Some(mb) => {
            if mb <= 0 {
                return None;
            }
            let bytes: i128 = div_round(mb as i128, 1000);
            proof {
                number::lemma_nearest_parts(mb as int, 1000);
            }
            Some(bytes as u64)
        },
        None => None,
    }
}

/// Fit hands the entire budget to the audio: there is no video to share it with.
pub fn fit_audio_kbps(job: &ExportJob, logs: &[i64]) -> (r: Option<i64>)
    ensures
        r is Some <==> fit_sound(*job, logs@) is Some,
        r matches Some(kbps) ==> kbps == fit_sound(*job, logs@)->0,
{
    match target_bytes_for(job) {
        Some(bytes) => {
            let length = output_duration(job, logs);
            if length <= 0 {
                return None;
            }
            let kbps = clamp64(div_round(bytes as i128 * 7_440_000, length as i128));
            Some(if kbps < 32 {
                32
            } else {
                kbps
            })
        },
        None => None,
    }
}

/// Stepped per codec rather than sharing one table: 96k opus is comparable to 128k mp3, so shared
/// numbers would make "small" mean different things.
pub fn audio_only_kbps(job: &ExportJob, logs: &[i64]) -> (r: i64)
    ensures
        r == sound_rate(*job, logs@),
{
    let (high, middle, small): (i64, i64, i64) = match job.format {
        ExportFormat::Mp3 => (256, 192, 128),
        ExportFormat::M4a => (256, 160, 96),
        ExportFormat::Opus => (192, 128, 96),
        ExportFormat::Ogg => (224, 160, 112),
        ExportFormat::Wav => {
            return 1536;
        },
        ExportFormat::Flac => {
            return 900;
        },
        _ => {
            return 0;
        },
    };
    match fit_audio_kbps(job, logs) {
        Some(kbps) => kbps,
        None => pick(job.quality, high, middle, small),
    }
}

pub fn video_path_audio_kbps(job: &ExportJob) -> (r: i64)
    ensures
        r == side_rate(*job),
        96 <= r <= 160,
{
    if job.format == ExportFormat::Webm {
        128
    } else {
        audio_kbps_for(job.quality)
    }
}

/// The container's own overhead comes out of the same budget, and a file slightly over its limit
/// fails as hard as one far over it.
pub fn fit_video_kbps(job: &ExportJob, keep_audio: bool, logs: &[i64]) -> (r: Option<i64>)
    ensures
        r is Some <==> fit_picture(*job, keep_audio, logs@) is Some,
        r matches Some(kbps) ==> kbps == fit_picture(*job, keep_audio, logs@)->0,
{
    match target_bytes_for(job) {
        Some(bytes) => {
            let length = output_duration(job, logs);
            let side = video_path_audio_kbps(job);
            proof {
                assert(0 <= side * length <= 160 * length) by (nonlinear_arith)
                    requires
                        96 <= side <= 160,
                        length >= 0,
                ;
            }
            let sound: i128 = if keep_audio {
                side as i128 * length as i128
            } else {
                0
            };
            let kbps = if length > 0 {
                clamp64(div_round(bytes as i128 * 7_440_000 - sound, length as i128))
            } else {
                0
            };
            Some(if kbps < 100 {
                100
            } else {
                kbps
            })
        },
        None => None,
    }
}

/// The rate the picture is held to, if any.
pub fn video_kbps_for(job: &ExportJob, keep_audio: bool, logs: &[i64]) -> (r: Option<i64>)
    ensures
        r is Some <==> picture_rate(*job, keep_audio, logs@) is Some,
        r matches Some(kbps) ==> kbps == picture_rate(*job, keep_audio, logs@)->0 && kbps > 0,
{
    match fit_video_kbps(job, keep_audio, logs) {
        Some(kbps) => Some(kbps),
        None => match job.video_kbps {
            Some(kbps) => if kbps > 0 {
                Some(kbps)
            } else {
                None
            },
            None => None,
        },
    }
}

/// Above its floor, a size target's picture and sound together stay within 93% of the budget, to
/// the rounding of one kilobit a second.
pub proof fn law_fit_keeps_to_the_budget(job: ExportJob, keep_audio: bool, logs: Seq<i64>)
    requires
        job::output_length(job, logs) > 0,
        fit_picture(job, keep_audio, logs) is Some,
        fit_picture(job, keep_audio, logs)->0 > 100,
    ensures
        ({
            let length = job::output_length(job, logs);
            let kbps = fit_picture(job, keep_audio, logs)->0;
            let sound = if keep_audio {
                side_rate(job)
            } else {
                0
            };
            2 * (kbps + sound) * length <= 2 * (budget(job)->0 * 7_440_000) + length
        }),
{
    let length = job::output_length(job, logs);
    let kbps = fit_picture(job, keep_audio, logs)->0;
    let side = if keep_audio {
        side_rate(job)
    } else {
        0
    };
    let sound = side * length;
    let n = budget(job)->0 * 7_440_000 - sound;
    assert(0 * length == 0);
    let rounded = number::nearest(n, length);
    assert(kbps <= rounded);
    if n < 0 {
        number::lemma_nearest_parts(-n, length);
        assert(rounded <= 0);
    } else {
        number::lemma_nearest_parts(n, length);
        vstd::arithmetic::div_mod::lemma_fundamental_div_mod(n, length);
        let q = n / length;
        let rest = n % length;
        assert(2 * (kbps + side) * length <= 2 * (n + sound) + length) by (nonlinear_arith)
            requires
                n == length * q + rest,
                0 <= rest < length,
                kbps <= q + (if 2 * rest >= length {
                    1int
                } else {
                    0int
                }),
                sound == side * length,
                length > 0,
        ;
    }
}

// --- What holds of every rate ---

/// A size target is spent, and not only kept to: above the floors, what the picture and the sound
/// take together, or the sound alone, is 93% of the target's bits over the clip's length, to the
/// rounding of one kilobit a second. Targets are decimal megabytes.
pub proof fn law_fit_spends_the_budget(job: ExportJob, keep_audio: bool, logs: Seq<i64>)
    requires
        job.quality is Fit,
        job.target_mb matches Some(mb) && 0 < mb <= 10_000_000_000_000,
        job::output_length(job, logs) > 0,
    ensures
        ({
            let length = job::output_length(job, logs);
            let mb = job.target_mb->0;
            // 0.93 of eight bits a byte, as kilobits a second times billionths of a second.
            let bits = 7440 * mb;
            let picture = fit_picture(job, keep_audio, logs);
            let sound = fit_sound(job, logs);
            let beside: int = if keep_audio {
                128
            } else {
                0
            };
            &&& budget(job) matches Some(bytes) && -1000 <= 2 * (1000 * bytes - mb) <= 1000
            &&& picture matches Some(kbps) && kbps >= 100 && (100 < kbps < i64::MAX ==> -length - 7_440_000
                <= 2 * ((kbps + beside) * length - bits) <= length + 7_440_000)
            &&& sound matches Some(kbps) && kbps >= 32 && (32 < kbps < i64::MAX ==> -length - 7_440_000
                <= 2 * (kbps * length - bits) <= length + 7_440_000)
        }),
{
    let length = job::output_length(job, logs);
    let mb = job.target_mb->0 as int;
    number::lemma_near(mb, 1000);
    let bytes = number::nearest(mb, 1000);
    number::lemma_near(bytes * 7_440_000, length);
    let side = if keep_audio {
        side_rate(job)
    } else {
        0
    };
    let beside = side * length;
    assert(0 * length == 0);
    let n = bytes * 7_440_000 - beside;
    number::lemma_near(n, length);
    let (x, y) = (number::nearest(n, length), number::nearest(bytes * 7_440_000, length));
    assert((x + side) * length == x * length + beside) by (nonlinear_arith)
        requires
            beside == side * length,
    ;
    assert(side == if keep_audio {
        128int
    } else {
        0int
    });
    let picture = fit_picture(job, keep_audio, logs)->0;
    if 100 < picture < i64::MAX {
        assert(picture == x);
        assert((picture + side) * length == (x + side) * length);
    }
    let sound = fit_sound(job, logs)->0;
    if 32 < sound < i64::MAX {
        assert(sound == y);
        assert(sound * length == y * length);
    }
    let bits = 7440 * mb;
    let (all, u, v) = (bytes * 7_440_000, x * length, y * length);
    assert(-7_440_000 <= 2 * (all - bits) <= 7_440_000);
    assert(-length <= 2 * (v - all) <= length);
    assert(-length <= 2 * (u - (all - beside)) <= length);
    assert(budget(job) == Some(bytes));
    assert(-1000 <= 2 * (1000 * bytes - mb) <= 1000);
    assert(100 < picture < i64::MAX ==> -length - 7_440_000 <= 2 * ((picture + side) * length - bits)
        <= length + 7_440_000);
    assert(32 < sound < i64::MAX ==> -length - 7_440_000 <= 2 * (sound * length - bits) <= length
        + 7_440_000);
    assert(fit_picture(job, keep_audio, logs) is Some && picture >= 100);
    assert(fit_sound(job, logs) is Some && sound >= 32);
}

/// A better preset never has fewer bits: its quantiser is never coarser and its sound never
/// thinner.
pub proof fn law_presets_are_ordered(a: ExportJob, b: ExportJob, logs: Seq<i64>)
    requires
        a == (ExportJob { quality: a.quality, ..b }),
        (a.quality is High && b.quality is Balanced) || (a.quality is Balanced && b.quality is Small),
    ensures
        side_rate(a) >= side_rate(b),
        sound_rate(a, logs) >= sound_rate(b, logs),
{
}

/// What sound alone is encoded at, in kilobits a second, where no size target decides.
pub proof fn law_sound_has_its_rate(job: ExportJob, logs: Seq<i64>)
    requires
        !(job.quality is Fit),
    ensures
        job.format is Mp3 ==> sound_rate(job, logs) == (match job.quality {
            QualityPreset::High => 256int,
            QualityPreset::Balanced => 192int,
            _ => 128int,
        }),
        job.format is M4a ==> sound_rate(job, logs) == (match job.quality {
            QualityPreset::High => 256int,
            QualityPreset::Balanced => 160int,
            _ => 96int,
        }),
        job.format is Opus ==> sound_rate(job, logs) == (match job.quality {
            QualityPreset::High => 192int,
            QualityPreset::Balanced => 128int,
            _ => 96int,
        }),
        job.format is Ogg ==> sound_rate(job, logs) == (match job.quality {
            QualityPreset::High => 224int,
            QualityPreset::Balanced => 160int,
            _ => 112int,
        }),
        job.format is Wav ==> sound_rate(job, logs) == 1536,
        job.format is Flac ==> sound_rate(job, logs) == 900,
        job.format is Webm ==> side_rate(job) == 128,
{
}

/// A rate that the job names is held where no size target works out its own.
pub proof fn law_a_named_rate_is_held(job: ExportJob, keep_audio: bool, logs: Seq<i64>)
    requires
        job.video_kbps matches Some(kbps) && kbps > 0,
    ensures
        !(job.quality is Fit) ==> picture_rate(job, keep_audio, logs) == Some(job.video_kbps->0 as int),
        job.quality is Fit && (job.target_mb matches Some(mb) && mb > 0) ==> picture_rate(job, keep_audio, logs)
            == fit_picture(job, keep_audio, logs),
{
}

/// Nothing that lasts no time has a rate of its own to fit: sound alone then falls back to its
/// preset, and the picture to the lowest rate it may have.
pub proof fn law_no_time_fits_no_rate(job: ExportJob, keep_audio: bool, logs: Seq<i64>)
    requires
        job::output_length(job, logs) <= 0,
    ensures
        fit_sound(job, logs) is None,
        fit_picture(job, keep_audio, logs) matches Some(kbps) ==> kbps == 100,
{
}

} // verus!
