//! What is to be exported: the source as probed, the edit as the user left it, and the file to
//! write. Times, speeds, gains and effect strengths are quantities in billionths.

use vstd::prelude::*;
use vstd::string::*;

use crate::number;
use crate::number::{clamp64, div_round, ONE};
use crate::ramp;
use crate::ramp::{has_ramp, ramped_duration, segments, Segment, SpeedPoint};
use crate::text;

verus! {

broadcast use crate::text::texts_push;

/// A rectangle in source pixels, in display orientation.
#[derive(Debug, Clone, Copy, PartialEq, Eq, Structural)]
pub struct Rect {
    pub x: i64,
    pub y: i64,
    pub w: i64,
    pub h: i64,
}

/// What a probe says about a file.
#[derive(Debug, Clone)]
pub struct MediaInfo {
    pub path: String,
    pub duration: i64,
    pub width: i64,
    pub height: i64,
    pub fps: i64,
    pub rotation: i64,
    pub has_audio: bool,
    pub video_codec: String,
    pub audio_codec: Option<String>,
    pub size_bytes: u64,
}

#[derive(Debug, Clone, Copy, PartialEq, Eq, Structural)]
pub enum ExportFormat {
    Mp4,
    Mkv,
    Mov,
    Webm,
    Gif,
    Mp3,
    M4a,
    Wav,
    Flac,
    Ogg,
    Opus,
}

#[derive(Debug, Clone, Copy, PartialEq, Eq, Structural)]
pub enum QualityPreset {
    High,
    Balanced,
    Small,
    /// Size-targeted: the byte budget comes from [`ExportJob::target_mb`] rather than from the
    /// preset.
    Fit,
}

#[derive(Debug, Clone, Copy, PartialEq, Eq, Structural)]
pub enum TextAnchorX {
    Left,
    Center,
    Right,
}

#[derive(Debug, Clone, Copy, PartialEq, Eq, Structural)]
pub enum TextAnchorY {
    Top,
    Middle,
    Bottom,
}

/// Words drawn over the picture, in one of nine places.
#[derive(Debug, Clone)]
pub struct TextOverlay {
    /// Taken exactly as typed. It never enters the filter graph.
    pub text: String,
    /// Fraction of the frame height, so one setting reads the same at 1080p and 480p.
    pub size: i64,
    /// '#rrggbb'.
    pub color: String,
    /// 0 to 1.
    pub opacity: i64,
    pub anchor_x: TextAnchorX,
    pub anchor_y: TextAnchorY,
    pub boxed: bool,
}

/// The quick effects, resolved: `None` is off.
#[derive(Debug, Clone)]
pub struct Effects {
    /// Gaussian sigma, in source pixels.
    pub blur: Option<i64>,
    /// Linear multipliers; 1 is unchanged.
    pub brightness: Option<i64>,
    pub contrast: Option<i64>,
    pub saturation: Option<i64>,
    /// Degrees.
    pub hue: Option<i64>,
    /// 0 to 1, scaled onto the lens angle the filter takes.
    pub vignette: Option<i64>,
    /// Seconds, on the exported timeline.
    pub fade_in: Option<i64>,
    pub fade_out: Option<i64>,
    pub text: Option<TextOverlay>,
}

/// How the frame is turned before anything else happens to it, so that every coordinate
/// downstream is in the frame as the user sees it.
#[derive(Debug, Clone, Copy, PartialEq, Eq, Structural)]
pub struct Orientation {
    /// Degrees clockwise: 0, 90, 180 or 270. Anything else counts as 0.
    pub rotate: i64,
    /// Mirrored left to right, after the turn.
    pub flip_h: bool,
    pub flip_v: bool,
}

#[derive(Debug, Clone)]
pub struct ExportJob {
    pub input: String,
    pub output: String,
    pub in_point: i64,
    pub out_point: i64,
    pub speed: i64,
    /// The speed curve on top of `speed`, on the source timeline. Empty is a flat 1.
    pub ramp: Vec<SpeedPoint>,
    /// Applied at the head of the chain, so `crop` is in the turned frame.
    pub orientation: Orientation,
    pub crop: Option<Rect>,
    pub mute: bool,
    pub reverse: bool,
    /// Loudness normalisation, ahead of `volume`, which trims from there.
    pub normalize: bool,
    /// Linear gain, 1 = unchanged.
    pub volume: i64,
    pub format: ExportFormat,
    pub quality: QualityPreset,
    /// Only read when `quality` is [`QualityPreset::Fit`]. Decimal megabytes.
    pub target_mb: Option<i64>,
    pub lossless: bool,
    /// `None` follows the source. Otherwise the finished clip's smaller dimension, the way
    /// "1080p" names it whichever way up the frame is.
    pub output_height: Option<i64>,
    /// `None` lets the quality preset decide the rate.
    pub video_kbps: Option<i64>,
    pub effects: Effects,
}

// --- Formats and effects ---

impl ExportFormat {
    pub open spec fn audio(self) -> bool {
        self is Mp3 || self is M4a || self is Wav || self is Flac || self is Ogg || self is Opus
    }

    /// Whether the file holds sound alone.
    pub fn is_audio(self) -> (r: bool)
        ensures
            r == self.audio(),
    {
        matches!(
            self,
            ExportFormat::Mp3 | ExportFormat::M4a | ExportFormat::Wav | ExportFormat::Flac
                | ExportFormat::Ogg | ExportFormat::Opus
        )
    }
}

impl Effects {
    pub open spec fn on(self) -> bool {
        ||| self.blur is Some
        ||| self.brightness is Some
        ||| self.contrast is Some
        ||| self.saturation is Some
        ||| self.hue is Some
        ||| self.vignette is Some
        ||| self.fade_in is Some
        ||| self.fade_out is Some
        ||| self.text is Some
    }

    /// Whether anything at all is switched on. A stream copy cannot apply any of it.
    pub fn any(&self) -> (r: bool)
        ensures
            r == self.on(),
    {
        self.blur.is_some() || self.brightness.is_some() || self.contrast.is_some()
            || self.saturation.is_some() || self.hue.is_some() || self.vignette.is_some()
            || self.fade_in.is_some() || self.fade_out.is_some() || self.text.is_some()
    }
}

impl Default for Effects {
    /// Every effect off.
    fn default() -> (r: Effects)
        ensures
            !r.on(),
    {
        Effects {
            blur: None,
            brightness: None,
            contrast: None,
            saturation: None,
            hue: None,
            vignette: None,
            fade_in: None,
            fade_out: None,
            text: None,
        }
    }
}

// --- Turning the frame ---

impl Orientation {
    /// Quarter turns clockwise, 0 to 3.
    pub open spec fn quarter_turns(self) -> int {
        if self.rotate == 90 {
            1
        } else if self.rotate == 180 {
            2
        } else if self.rotate == 270 {
            3
        } else {
            0
        }
    }

    /// The filters that turn and mirror the frame: `transpose=1` is a quarter clockwise and
    /// `transpose=2` a quarter anticlockwise.
    pub open spec fn filter_texts(self) -> Seq<Seq<char>> {
        let turn = if self.quarter_turns() == 1 {
            seq!["transpose=1"@]
        } else if self.quarter_turns() == 2 {
            seq!["transpose=1"@, "transpose=1"@]
        } else if self.quarter_turns() == 3 {
            seq!["transpose=2"@]
        } else {
            Seq::empty()
        };
        turn + (if self.flip_h {
            seq!["hflip"@]
        } else {
            Seq::empty()
        }) + (if self.flip_v {
            seq!["vflip"@]
        } else {
            Seq::empty()
        })
    }

    pub fn any(&self) -> (r: bool)
        ensures
            r == (self.quarter_turns() != 0 || self.flip_h || self.flip_v),
    {
        self.turns() != 0 || self.flip_h || self.flip_v
    }

    fn turns(&self) -> (r: i64)
        ensures
            r == self.quarter_turns(),
    {
        match self.rotate {
            90 => 1,
            180 => 2,
            270 => 3,
            _ => 0,
        }
    }

    /// Whether width and height swap. Every size calculation downstream keys on this.
    pub fn swaps_axes(&self) -> (r: bool)
        ensures
            r == (self.quarter_turns() % 2 == 1),
    {
        let n = self.turns();
        n == 1 || n == 3
    }

    pub fn filters(&self) -> (r: Vec<String>)
        ensures
            text::texts(r@) == self.filter_texts(),
    {
        let mut parts: Vec<String> = Vec::new();
        let n = self.turns();
        if n == 1 {
            parts.push("transpose=1".to_string());
        } else if n == 2 {
            parts.push("transpose=1".to_string());
            parts.push("transpose=1".to_string());
        } else if n == 3 {
            parts.push("transpose=2".to_string());
        }
        if self.flip_h {
            parts.push("hflip".to_string());
        }
        if self.flip_v {
            parts.push("vflip".to_string());
        }
        proof {
            assert(text::texts(parts@) =~= self.filter_texts());
        }
        parts
    }
}

impl Default for Orientation {
    /// The frame as it stands.
    fn default() -> (r: Orientation)
        ensures
            r == (Orientation { rotate: 0, flip_h: false, flip_v: false }),
    {
        Orientation { rotate: 0, flip_h: false, flip_v: false }
    }
}

/// The source size as the frame is shown after the turn.
pub open spec fn turned(job: ExportJob, width: i64, height: i64) -> (i64, i64) {
    if job.orientation.quarter_turns() % 2 == 1 {
        (height, width)
    } else {
        (width, height)
    }
}

/// The source size as the frame is shown after the turn. The crop rectangle, the scale ladder and
/// the size estimate all work in this space.
pub fn turned_size(job: &ExportJob, width: i64, height: i64) -> (r: (i64, i64))
    ensures
        r == turned(*job, width, height),
{
    if job.orientation.swaps_axes() {
        (height, width)
    } else {
        (width, height)
    }
}

/// Where one filter puts the pixel at `at` of a frame of `size`, and the frame's size behind it:
/// `transpose=1` turns the frame a quarter clockwise, `transpose=2` a quarter anticlockwise,
/// `hflip` swaps left and right, `vflip` top and bottom.
pub open spec fn moved(filter: Seq<char>, at: (int, int), size: (int, int)) -> ((int, int), (int, int)) {
    let ((x, y), (w, h)) = (at, size);
    if filter == "transpose=1"@ {
        ((h - 1 - y, x), (h, w))
    } else if filter == "transpose=2"@ {
        ((y, w - 1 - x), (h, w))
    } else if filter == "hflip"@ {
        ((w - 1 - x, y), (w, h))
    } else if filter == "vflip"@ {
        ((x, h - 1 - y), (w, h))
    } else {
        (at, size)
    }
}

/// Where filters one after another put a pixel, and the size of the frame behind them.
pub open spec fn carried(filters: Seq<Seq<char>>, at: (int, int), size: (int, int)) -> (
    (int, int),
    (int, int),
)
    decreases filters.len(),
{
    if filters.len() == 0 {
        (at, size)
    } else {
        let (next, frame) = moved(filters[0], at, size);
        carried(filters.skip(1), next, frame)
    }
}

proof fn lemma_carried_on(a: Seq<Seq<char>>, b: Seq<Seq<char>>, at: (int, int), size: (int, int))
    ensures
        carried(a + b, at, size) == carried(b, carried(a, at, size).0, carried(a, at, size).1),
    decreases a.len(),
{
    if a.len() == 0 {
        assert(a + b =~= b);
    } else {
        let (next, frame) = moved(a[0], at, size);
        assert((a + b).skip(1) =~= a.skip(1) + b);
        lemma_carried_on(a.skip(1), b, next, frame);
    }
}

proof fn lemma_carried_one(filter: Seq<char>, at: (int, int), size: (int, int))
    ensures
        carried(seq![filter], at, size) == moved(filter, at, size),
{
    assert(seq![filter].skip(1) =~= Seq::empty());
    reveal_with_fuel(carried, 2);
}

/// The filters put every pixel where the turn asked for puts it: by so many degrees clockwise, and
/// mirrored left to right or top to bottom after that. The frame behind them has the size that
/// everything downstream works with.
pub proof fn law_frame_is_turned_as_asked(job: ExportJob, x: int, y: int, width: i64, height: i64)
    ensures
        ({
            let o = job.orientation;
            let (w, h) = (width as int, height as int);
            let (tx, ty, tw, th) = if o.rotate == 90 {
                (h - 1 - y, x, h, w)
            } else if o.rotate == 180 {
                (w - 1 - x, h - 1 - y, w, h)
            } else if o.rotate == 270 {
                (y, w - 1 - x, h, w)
            } else {
                (x, y, w, h)
            };
            let (at, size) = carried(o.filter_texts(), (x, y), (w, h));
            &&& at.0 == (if o.flip_h {
                tw - 1 - tx
            } else {
                tx
            })
            &&& at.1 == (if o.flip_v {
                th - 1 - ty
            } else {
                ty
            })
            &&& size == (tw, th)
            &&& size == (turned(job, width, height).0 as int, turned(job, width, height).1 as int)
        }),
{
    reveal_strlit("transpose=1");
    reveal_strlit("transpose=2");
    reveal_strlit("hflip");
    reveal_strlit("vflip");
    assert("transpose=1"@[10] != "transpose=2"@[10]);
    assert("hflip"@[0] != "vflip"@[0]);
    assert("hflip"@.len() != "transpose=1"@.len());
    let o = job.orientation;
    let from = (x, y);
    let size = (width as int, height as int);
    let turn = if o.quarter_turns() == 1 {
        seq!["transpose=1"@]
    } else if o.quarter_turns() == 2 {
        seq!["transpose=1"@] + seq!["transpose=1"@]
    } else if o.quarter_turns() == 3 {
        seq!["transpose=2"@]
    } else {
        Seq::empty()
    };
    let across = if o.flip_h {
        seq!["hflip"@]
    } else {
        Seq::empty()
    };
    let down = if o.flip_v {
        seq!["vflip"@]
    } else {
        Seq::empty()
    };
    assert(o.filter_texts() =~= turn + across + down);
    lemma_carried_on(turn + across, down, from, size);
    lemma_carried_on(turn, across, from, size);
    lemma_carried_one("transpose=1"@, from, size);
    lemma_carried_one("transpose=2"@, from, size);
    let once = moved("transpose=1"@, from, size);
    lemma_carried_on(seq!["transpose=1"@], seq!["transpose=1"@], from, size);
    lemma_carried_one("transpose=1"@, once.0, once.1);
    let mid = carried(turn, from, size);
    lemma_carried_one("hflip"@, mid.0, mid.1);
    let end = carried(across, mid.0, mid.1);
    lemma_carried_one("vflip"@, end.0, end.1);
}

// --- Time ---

/// The source window, which the speed change does not alter.
pub open spec fn source_length(job: ExportJob) -> int {
    if job.out_point <= job.in_point {
        0
    } else {
        number::sat(job.out_point - job.in_point)
    }
}

/// The pieces of the job's curve across its trim.
pub open spec fn job_segments(job: ExportJob) -> Seq<Segment> {
    ramp::segmented(job.ramp@, job.speed, job.in_point, job.out_point)
}

/// The finished clip's length: the window divided by the speed, or what the curve makes of it.
pub open spec fn output_length(job: ExportJob, logs: Seq<i64>) -> int {
    if job.speed <= 0 {
        0
    } else if ramp::ramped(job.ramp@) {
        ramp::length(job_segments(job), logs)
    } else if job.out_point <= job.in_point {
        0
    } else {
        number::sat(number::nearest((job.out_point - job.in_point) * ONE, job.speed as int))
    }
}

pub fn source_duration(job: &ExportJob) -> (r: i64)
    ensures
        r == source_length(*job),
        r >= 0,
{
    if job.out_point <= job.in_point {
        0
    } else {
        clamp64(job.out_point as i128 - job.in_point as i128)
    }
}

pub fn ramp_segments(job: &ExportJob) -> (r: Vec<Segment>)
    ensures
        r@ == job_segments(*job),
{
    segments(job.ramp.as_slice(), job.speed, job.in_point, job.out_point)
}

/// The finished clip's length. `logs` belongs to the pieces of the job's curve.
pub fn output_duration(job: &ExportJob, logs: &[i64]) -> (r: i64)
    ensures
        r == output_length(*job, logs@),
        r >= 0,
{
    if job.speed <= 0 {
        return 0;
    }
    if has_ramp(job.ramp.as_slice()) {
        return ramped_duration(job.ramp.as_slice(), job.speed, job.in_point, job.out_point, logs);
    }
    if job.out_point <= job.in_point {
        return 0;
    }
    let window: i128 = job.out_point as i128 - job.in_point as i128;
    proof {
        number::lemma_nearest_parts(window * ONE, job.speed as int);
    }
    clamp64(div_round(window * 1_000_000_000, job.speed as i128))
}

/// Without a curve the finished clip is the window divided by the speed, to the nearest billionth:
/// length times speed gives the window back. The source's own window does not depend on the speed.
pub proof fn law_speed_divides_the_window(job: ExportJob, logs: Seq<i64>)
    requires
        !ramp::ramped(job.ramp@),
        job.speed > 0,
        job.in_point < job.out_point,
    ensures
        ({
            let (length, window) = (output_length(job, logs), job.out_point - job.in_point);
            &&& length < i64::MAX ==> -job.speed <= 2 * (length * job.speed - window * 1_000_000_000)
                <= job.speed
            &&& window <= i64::MAX ==> source_length(job) == window
            &&& job.speed == 1_000_000_000 && window < i64::MAX ==> length == window
        }),
{
    let window = job.out_point - job.in_point;
    let speed = job.speed as int;
    let x = number::nearest(window * ONE, speed);
    number::lemma_near(window * ONE, speed);
    let length = output_length(job, logs);
    assert(length == number::sat(x));
    if length < i64::MAX {
        assert(length == x);
        assert(length * job.speed == x * speed);
    }
    if speed == 1_000_000_000 {
        assert(x == window) by (nonlinear_arith)
            requires
                -speed <= 2 * (x * speed - window * 1_000_000_000) <= speed,
                speed == 1_000_000_000,
        ;
    }
}

} // verus!
