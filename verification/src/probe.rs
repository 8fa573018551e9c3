//! What ffprobe says about a file.

use vstd::prelude::*;
use vstd::string::*;

use crate::job::MediaInfo;
use crate::json;
use crate::json::{elements, member, member_in, number, parse, string, whole, Json};
use crate::number;
use crate::number::{clamp64, div_round, ONE};
use crate::reading;
use crate::reading::{read_number, Reading};
use crate::text;
use crate::text::{chars_between, chars_of, find_char, joined_to, trim_chars, CharSet};

verus! {

// --- Numbers ---

/// ffprobe writes most numbers as JSON texts but not all of them, and which is which changes
/// between fields and between builds.
pub open spec fn number_in(j: Option<Json>, places: int) -> Option<Reading> {
    match j {
        Some(v) => if v.number() is Some {
            reading::reading(v.number()->0, places)
        } else if v.text() is Some {
            reading::reading(text::trimmed(v.text()->0), places)
        } else {
            None
        },
        None => None,
    }
}

/// A reading as a whole number: infinities at the ends of the range, and no number at zero.
pub open spec fn settled(r: Reading) -> i64 {
    match r {
        Reading::Value(v) => v,
        Reading::Above => i64::MAX,
        Reading::Below => i64::MIN,
        Reading::NotANumber => 0,
    }
}

/// A rate written as a fraction. A still image or a broken container says "0/0" here.
pub open spec fn rate_in(j: Option<Json>) -> Option<i64> {
    match j {
        Some(v) => match v.text() {
            Some(s) => {
                let n = text::next_at(s, '/', 0);
                if n < s.len() {
                    fraction(text::trimmed(s.take(n)), text::trimmed(s.skip(n + 1)))
                } else {
                    None
                }
            },
            None => None,
        },
        None => None,
    }
}

/// Whether a number is past the end of its range in the unit it was read in.
pub open spec fn at_the_end(r: Option<Reading>) -> bool {
    r == Some(Reading::Value(i64::MAX))
}

/// The rate that two texts make: their numbers are read in billionths, or both in tenths where
/// one of them is too large for that.
pub open spec fn fraction(num: Seq<char>, den: Seq<char>) -> Option<i64> {
    let n = reading::reading(num, 9);
    let d = reading::reading(den, 9);
    if at_the_end(n) || at_the_end(d) {
        quotient(reading::reading(num, 1), reading::reading(den, 1))
    } else {
        quotient(n, d)
    }
}

/// The rate that two numbers make: any two that are positive make one, and the slowest is a
/// billionth.
pub open spec fn quotient(num: Option<Reading>, den: Option<Reading>) -> Option<i64> {
    match (num, den) {
        (Some(Reading::Value(n)), Some(Reading::Value(d))) => {
            let rate = number::sat(number::nearest(n * ONE, d as int));
            if n > 0 && d > 0 {
                Some(if rate > 0 {
                    rate as i64
                } else {
                    1
                })
            } else {
                None
            }
        },
        _ => None,
    }
}

fn number_at(v: Option<&serde_json::Value>, places: u32) -> (r: Option<Reading>)
    ensures
        r == number_in(json::held(v), places as int),
{
    match v {
        Some(x) => {
            if let Some(s) = number(x) {
                return read_number(&chars_of(s.as_str()), places);
            }
            if let Some(s) = string(x) {
                return read_number(&trim_chars(chars_of(s), &CharSet::White), places);
            }
            None
        },
        None => None,
    }
}

fn settle(r: Reading) -> (v: i64)
    ensures
        v == settled(r),
{
    match r {
        Reading::Value(v) => v,
        Reading::Above => i64::MAX,
        Reading::Below => i64::MIN,
        Reading::NotANumber => 0,
    }
}

fn is_at_the_end(r: Option<Reading>) -> (b: bool)
    ensures
        b == at_the_end(r),
{
    match r {
        Some(Reading::Value(v)) => v == i64::MAX,
        _ => false,
    }
}

fn rate(num: Option<Reading>, den: Option<Reading>) -> (r: Option<i64>)
    ensures
        r == quotient(num, den),
{
    match (num, den) {
        (Some(Reading::Value(n)), Some(Reading::Value(d))) => {
            if n <= 0 || d <= 0 {
                return None;
            }
            let fps = clamp64(div_round(n as i128 * 1_000_000_000, d as i128));
            Some(if fps > 0 {
                fps
            } else {
                1
            })
        },
        _ => None,
    }
}

fn parse_rational(v: Option<&serde_json::Value>) -> (r: Option<i64>)
    ensures
        r == rate_in(json::held(v)),
{
    let s = match v {
        Some(x) => match string(x) {
            Some(s) => chars_of(s),
            None => {
                return None;
            },
        },
        None => {
            return None;
        },
    };
    let at = find_char(&s, '/', 0);
    if at == s.len() {
        return None;
    }
    let num = chars_between(&s, 0, at);
    let den = chars_between(&s, at + 1, s.len());
    proof {
        assert(num@ =~= s@.take(at as int));
        assert(den@ =~= s@.skip(at + 1));
    }
    let num = trim_chars(num, &CharSet::White);
    let den = trim_chars(den, &CharSet::White);
    let n = read_number(&num, 9);
    let d = read_number(&den, 9);
    if is_at_the_end(n) || is_at_the_end(d) {
        return rate(read_number(&num, 1), read_number(&den, 1));
    }
    rate(n, d)
}

// --- Rotation ---

/// The first rotation among a stream's side data, from entry `i` on.
pub open spec fn side_rotation(entries: Seq<Json>, i: int) -> Option<Reading>
    decreases entries.len() - i,
{
    if i >= entries.len() {
        None
    } else {
        match number_in(entries[i].get("rotation"@), 0) {
            Some(r) => Some(r),
            None => side_rotation(entries, i + 1),
        }
    }
}

/// What a stream says of its rotation. Modern files carry it in the side data, older ones only in
/// a tag.
pub open spec fn said_rotation(stream: Json) -> Reading {
    let side = match stream.get("side_data_list"@) {
        Some(v) => match v.list() {
            Some(entries) => side_rotation(entries, 0),
            None => None,
        },
        None => None,
    };
    let tag = number_in(member_of_tags(stream), 0);
    match (side, tag) {
        (Some(r), _) => r,
        (None, Some(r)) => r,
        (None, None) => Reading::Value(0),
    }
}

pub open spec fn member_of_tags(stream: Json) -> Option<Json> {
    json::member_of(stream.get("tags"@), "rotate"@)
}

/// The quarter turn nearest to a number of degrees: some cameras write 89 or 271.
pub open spec fn quarter(degrees: int) -> i64 {
    let turn = ((degrees % 360 + 45) / 90) % 4;
    if turn == 1 {
        90
    } else if turn == 2 {
        180
    } else if turn == 3 {
        270
    } else {
        0
    }
}

fn nearest_quarter(degrees: i64) -> (r: i64)
    ensures
        r == quarter(degrees as int),
{
    let turned: u128 = if degrees >= 0 {
        degrees as u128 % 360
    } else {
        let m: u128 = (-(degrees as i128)) as u128 % 360;
        if m == 0 {
            0
        } else {
            360 - m
        }
    };
    let turn: u128 = ((turned + 45) / 90) % 4;
    if turn == 1 {
        90
    } else if turn == 2 {
        180
    } else if turn == 3 {
        270
    } else {
        0
    }
}

fn first_rotation(entries: &Vec<serde_json::Value>) -> (r: Option<Reading>)
    ensures
        r == side_rotation(json::all_json(entries@), 0),
{
    let mut i: usize = 0;
    let ghost all = json::all_json(entries@);
    while i < entries.len()
        invariant
            i <= entries.len(),
            all == json::all_json(entries@),
            side_rotation(all, 0) == side_rotation(all, i as int),
        decreases entries.len() - i,
    {
        let found = number_at(member(&entries[i], "rotation"), 0);
        proof {
            assert(all[i as int] == json::json_of(entries@[i as int]));
        }
        if found.is_some() {
            return found;
        }
        i += 1;
    }
    None
}

fn read_rotation(stream: &serde_json::Value) -> (r: i64)
    ensures
        r == quarter(settled(said_rotation(json::json_of(*stream))) as int),
{
    let side = match member(stream, "side_data_list") {
        Some(v) => match elements(v) {
            Some(entries) => first_rotation(entries),
            None => None,
        },
        None => None,
    };
    let raw = match side {
        Some(found) => found,
        None => match number_at(member_in(member(stream, "tags"), "rotate"), 0) {
            Some(found) => found,
            None => Reading::Value(0),
        },
    };
    nearest_quarter(settle(raw))
}

// --- Streams ---

/// A stream of this kind.
pub open spec fn of_kind(stream: Json, kind: Seq<char>) -> bool {
    match stream.get("codec_type"@) {
        Some(v) => v.text() == Some(kind),
        None => false,
    }
}

/// A stream that is moving pictures: a sound file's cover art is a video stream too, of a single
/// still.
pub open spec fn is_video(stream: Json) -> bool {
    let attached = match json::member_of(stream.get("disposition"@), "attached_pic"@) {
        Some(v) => v.integer(),
        None => None,
    };
    of_kind(stream, "video"@) && (attached is None || attached == Some(0i64))
}

/// The first stream from `i` on that is video, or that is sound.
pub open spec fn first_stream(streams: Seq<Json>, video: bool, i: int) -> int
    decreases streams.len() - i,
{
    if i >= streams.len() {
        streams.len() as int
    } else if (video && is_video(streams[i])) || (!video && of_kind(streams[i], "audio"@)) {
        i
    } else {
        first_stream(streams, video, i + 1)
    }
}

fn kind_is(stream: &serde_json::Value, kind: &str) -> (r: bool)
    ensures
        r == of_kind(json::json_of(*stream), kind@),
{
    match member(stream, "codec_type") {
        Some(v) => match string(v) {
            Some(s) => *s == *kind,
            None => false,
        },
        None => false,
    }
}

fn moves(stream: &serde_json::Value) -> (r: bool)
    ensures
        r == is_video(json::json_of(*stream)),
{
    if !kind_is(stream, "video") {
        return false;
    }
    match member_in(member(stream, "disposition"), "attached_pic") {
        Some(v) => match whole(v) {
            Some(n) => n == 0,
            None => true,
        },
        None => true,
    }
}

fn find_stream(streams: &Vec<serde_json::Value>, video: bool) -> (r: usize)
    ensures
        r == first_stream(json::all_json(streams@), video, 0),
        r <= streams.len(),
{
    let mut i: usize = 0;
    let ghost all = json::all_json(streams@);
    while i < streams.len()
        invariant
            i <= streams.len(),
            all == json::all_json(streams@),
            first_stream(all, video, 0) == first_stream(all, video, i as int),
        decreases streams.len() - i,
    {
        proof {
            assert(all[i as int] == json::json_of(streams@[i as int]));
        }
        let found = if video {
            moves(&streams[i])
        } else {
            kind_is(&streams[i], "audio")
        };
        if found {
            return i;
        }
        i += 1;
    }
    i
}

/// A length that can be used: finite and more than nothing.
pub open spec fn usable(r: Option<Reading>) -> Option<i64> {
    match r {
        Some(Reading::Value(v)) => if v > 0 {
            Some(v)
        } else {
            None
        },
        _ => None,
    }
}

fn usable_length(r: Option<Reading>) -> (v: Option<i64>)
    ensures
        v == usable(r),
{
    match r {
        Some(Reading::Value(v)) => if v > 0 {
            Some(v)
        } else {
            None
        },
        _ => None,
    }
}

/// A file's length. The format's own is the one a player's seek bar uses; a remuxed file may say
/// zero there while its video stream carries the real length.
pub open spec fn length_of(root: Json, video: Json) -> i64 {
    let whole = usable(number_in(json::member_of(root.get("format"@), "duration"@), 9));
    let own = usable(number_in(video.get("duration"@), 9));
    match (whole, own) {
        (Some(v), _) => v,
        (None, Some(v)) => v,
        (None, None) => 0,
    }
}

/// A video stream's frame rate, or 30 where neither field gives one.
pub open spec fn fps_of(video: Json) -> i64 {
    match (rate_in(video.get("r_frame_rate"@)), rate_in(video.get("avg_frame_rate"@))) {
        (Some(v), _) => v,
        (None, Some(v)) => v,
        (None, None) => (30 * ONE) as i64,
    }
}

/// A stored dimension, or zero.
pub open spec fn dimension(video: Json, key: Seq<char>) -> i64 {
    match number_in(video.get(key), 0) {
        Some(r) => settled(r),
        None => 0,
    }
}

/// A text member, where there is one.
pub open spec fn text_at(stream: Json, key: Seq<char>) -> Option<Seq<char>> {
    match stream.get(key) {
        Some(v) => v.text(),
        None => None,
    }
}

/// What a file is found to be, from its root, its video stream and its sound stream. Width and
/// height are as displayed, so a quarter turn swaps them.
pub open spec fn describes(
    info: MediaInfo,
    root: Json,
    video: Json,
    audio: Option<Json>,
    path: Seq<char>,
    size_bytes: u64,
) -> bool {
    let rotation = quarter(settled(said_rotation(video)) as int);
    let w = dimension(video, "width"@);
    let h = dimension(video, "height"@);
    let on_its_side = rotation == 90 || rotation == 270;
    let codec = text_at(video, "codec_name"@);
    let sound = match audio {
        Some(a) => text_at(a, "codec_name"@),
        None => None,
    };
    &&& info.path@ == path
    &&& info.duration == length_of(root, video)
    &&& info.width == if on_its_side {
        h
    } else {
        w
    }
    &&& info.height == if on_its_side {
        w
    } else {
        h
    }
    &&& info.fps == fps_of(video)
    &&& info.rotation == rotation
    &&& info.has_audio == (audio is Some)
    &&& info.video_codec@ == if codec is Some {
        codec->0
    } else {
        Seq::empty()
    }
    &&& info.audio_codec is Some <==> sound is Some
    &&& info.audio_codec matches Some(s) ==> s@ == sound->0
    &&& info.size_bytes == size_bytes
}

/// What a probe's report makes of a file: its description, or why there is none.
pub open spec fn probed(
    r: Result<MediaInfo, String>,
    report: Result<Json, Seq<char>>,
    path: Seq<char>,
    size_bytes: u64,
) -> bool {
    match report {
        Err(e) => r matches Err(m) && m@ == "ffprobe did not return readable JSON: "@ + e,
        Ok(root) => match stream_list(root) {
            None => r matches Err(m) && m@ == "ffprobe reported no streams for this file"@,
            Some(streams) => {
                let v = first_stream(streams, true, 0);
                let a = first_stream(streams, false, 0);
                if v < streams.len() {
                    r matches Ok(info) && describes(
                        info,
                        root,
                        streams[v],
                        if a < streams.len() {
                            Some(streams[a])
                        } else {
                            None
                        },
                        path,
                        size_bytes,
                    )
                } else {
                    r matches Err(m) && m@ == "this file has no video track"@
                }
            },
        },
    }
}

pub open spec fn stream_list(root: Json) -> Option<Seq<Json>> {
    match root.get("streams"@) {
        Some(v) => v.list(),
        None => None,
    }
}

fn text_member(stream: &serde_json::Value, key: &str) -> (r: Option<String>)
    ensures
        r is Some <==> text_at(json::json_of(*stream), key@) is Some,
        r matches Some(s) ==> s@ == text_at(json::json_of(*stream), key@)->0,
{
    match member(stream, key) {
        Some(v) => match string(v) {
            Some(s) => Some(s.to_string()),
            None => None,
        },
        None => None,
    }
}

fn stored(video: &serde_json::Value, key: &str) -> (r: i64)
    ensures
        r == dimension(json::json_of(*video), key@),
{
    match number_at(member(video, key), 0) {
        Some(n) => settle(n),
        None => 0,
    }
}

fn length(root: &serde_json::Value, video: &serde_json::Value) -> (r: i64)
    ensures
        r == length_of(json::json_of(*root), json::json_of(*video)),
{
    if let Some(v) = usable_length(number_at(member_in(member(root, "format"), "duration"), 9)) {
        return v;
    }
    match usable_length(number_at(member(video, "duration"), 9)) {
        Some(v) => v,
        None => 0,
    }
}

fn frame_rate(video: &serde_json::Value) -> (r: i64)
    ensures
        r == fps_of(json::json_of(*video)),
{
    if let Some(v) = parse_rational(member(video, "r_frame_rate")) {
        return v;
    }
    match parse_rational(member(video, "avg_frame_rate")) {
        Some(v) => v,
        None => 30_000_000_000,
    }
}

fn describe(
    root: &serde_json::Value,
    video: &serde_json::Value,
    audio: Option<&serde_json::Value>,
    path: &str,
    size_bytes: u64,
) -> (r: MediaInfo)
    ensures
        describes(r, json::json_of(*root), json::json_of(*video), json::held(audio), path@, size_bytes),
{
    let rotation = read_rotation(video);
    let stored_width = stored(video, "width");
    let stored_height = stored(video, "height");
    let (width, height) = if rotation == 90 || rotation == 270 {
        (stored_height, stored_width)
    } else {
        (stored_width, stored_height)
    };
    let video_codec = match text_member(video, "codec_name") {
        Some(s) => s,
        None => String::new(),
    };
    let audio_codec = match audio {
        Some(a) => text_member(a, "codec_name"),
        None => None,
    };
    MediaInfo {
        path: path.to_string(),
        duration: length(root, video),
        width,
        height,
        fps: frame_rate(video),
        rotation,
        has_audio: audio.is_some(),
        video_codec,
        audio_codec,
        size_bytes,
    }
}

/// What a report that was read as JSON, or not, makes of a file.
pub fn describe_report(report: Result<serde_json::Value, String>, path: &str, size_bytes: u64) -> (r:
    Result<MediaInfo, String>)
    ensures
        probed(
            r,
            match report {
                Ok(v) => Ok(json::json_of(v)),
                Err(e) => Err(e@),
            },
            path@,
            size_bytes,
        ),
{
    let root = match report {
        Ok(v) => v,
        Err(e) => {
            return Err(joined_to("ffprobe did not return readable JSON: ", e));
        },
    };
    let streams = match member(&root, "streams") {
        Some(v) => match elements(v) {
            Some(list) => list,
            None => {
                return Err("ffprobe reported no streams for this file".to_string());
            },
        },
        None => {
            return Err("ffprobe reported no streams for this file".to_string());
        },
    };
    let v = find_stream(streams, true);
    if v == streams.len() {
        return Err("this file has no video track".to_string());
    }
    let a = find_stream(streams, false);
    let audio = if a < streams.len() {
        Some(&streams[a])
    } else {
        None
    };
    Ok(describe(&root, &streams[v], audio, path, size_bytes))
}

/// What ffprobe's report says of a file.
pub fn parse_probe(json: &str, path: &str, size_bytes: u64) -> (r: Result<MediaInfo, String>)
    ensures
        probed(r, json::json_parse(json@), path@, size_bytes),
{
    describe_report(parse(json), path, size_bytes)
}

/// Whatever a camera writes, the rotation is a quarter turn, and it is the nearest one.
pub proof fn law_rotation_is_the_nearest_quarter_turn(degrees: int)
    ensures
        quarter(degrees) == 0 || quarter(degrees) == 90 || quarter(degrees) == 180 || quarter(degrees)
            == 270,
        (degrees - quarter(degrees) + 45) % 360 < 90,
        quarter(degrees + 360) == quarter(degrees),
{
}

/// A rate is the quotient of its two numbers: times the second it gives the first back, to the
/// nearest billionth.
pub proof fn law_a_rate_is_a_quotient(n: nat, d: nat)
    requires
        0 < n <= 9_000_000_000,
        0 < d <= 9_000_000_000,
    ensures
        fraction(number::decimal(n), number::decimal(d)) matches Some(fps) && fps > 0 && (1 < fps < i64::MAX
            ==> -d <= 2 * (fps * d - n * 1_000_000_000) <= d),
        fraction(number::decimal(0), number::decimal(d)) is None,
        fraction(number::decimal(n), number::decimal(0)) is None,
{
    assert(reading::pow10(9) == 1_000_000_000) by {
        reveal_with_fuel(reading::pow10, 10);
    }
    let one = reading::pow10(9);
    assert(n * one == n * 1_000_000_000 && d * one == d * 1_000_000_000 && 0 * one == 0) by (nonlinear_arith)
        requires
            one == 1_000_000_000,
    ;
    reading::law_whole_numbers_read_back(n, 9);
    reading::law_whole_numbers_read_back(d, 9);
    reading::law_whole_numbers_read_back(0, 9);
    let (x, y) = (n * 1_000_000_000, d * 1_000_000_000);
    let fps = number::nearest(x * ONE, y as int);
    number::lemma_near(x * ONE, y as int);
    assert(-d <= 2 * (fps * d - n * 1_000_000_000) <= d) by (nonlinear_arith)
        requires
            -y <= 2 * (fps * y - x * 1_000_000_000) <= y,
            x == n * 1_000_000_000,
            y == d * 1_000_000_000,
    ;
}

/// The container's own length counts where it has one, whatever the stream says; the rate that a
/// stream is made for counts before the one it averages. Where neither is there, the length is
/// nothing and the rate thirty.
pub proof fn law_the_surer_number_counts(root: Json, other: Json, video: Json, twin: Json)
    ensures
        usable(number_in(json::member_of(root.get("format"@), "duration"@), 9)) matches Some(v) ==> length_of(
            root,
            video,
        ) == v && length_of(root, twin) == v,
        usable(number_in(json::member_of(root.get("format"@), "duration"@), 9)) is None && usable(
            number_in(json::member_of(other.get("format"@), "duration"@), 9),
        ) is None ==> length_of(root, video) == length_of(other, video),
        rate_in(video.get("r_frame_rate"@)) is Some && video.get("r_frame_rate"@) == twin.get("r_frame_rate"@)
            ==> fps_of(video) == fps_of(twin) && Some(fps_of(video)) == rate_in(video.get("r_frame_rate"@)),
        rate_in(video.get("r_frame_rate"@)) is None && rate_in(video.get("avg_frame_rate"@)) is None ==> fps_of(
            video,
        ) == 30_000_000_000,
        rate_in(video.get("r_frame_rate"@)) is None && rate_in(video.get("avg_frame_rate"@)) is Some ==> Some(
            fps_of(video),
        ) == rate_in(video.get("avg_frame_rate"@)),
        length_of(root, video) >= 0,
        fps_of(video) > 0,
{
}

/// The first stream that is a picture and no cover is the one that counts, and so is the first of
/// sound.
pub proof fn law_the_first_stream_counts(streams: Seq<Json>, video: bool, from: int)
    requires
        0 <= from <= streams.len(),
    ensures
        from <= first_stream(streams, video, from) <= streams.len(),
        forall|i: int|
            from <= i < first_stream(streams, video, from) ==> !(if video {
                is_video(#[trigger] streams[i])
            } else {
                of_kind(streams[i], "audio"@)
            }),
        first_stream(streams, video, from) < streams.len() ==> (if video {
            is_video(streams[first_stream(streams, video, from)])
        } else {
            of_kind(streams[first_stream(streams, video, from)], "audio"@)
        }),
    decreases streams.len() - from,
{
    if from < streams.len() && !((video && is_video(streams[from])) || (!video && of_kind(
        streams[from],
        "audio"@,
    ))) {
        law_the_first_stream_counts(streams, video, from + 1);
    }
}

/// A clip that is stored on its side is described as it is shown: its width and height change
/// places exactly where it is turned by a quarter or by three.
pub proof fn law_turned_clips_are_described_upright(
    info: MediaInfo,
    root: Json,
    video: Json,
    audio: Option<Json>,
    path: Seq<char>,
    size_bytes: u64,
)
    requires
        describes(info, root, video, audio, path, size_bytes),
    ensures
        info.rotation == 0 || info.rotation == 90 || info.rotation == 180 || info.rotation == 270,
        info.rotation == 90 || info.rotation == 270 ==> info.width == dimension(video, "height"@) && info.height
            == dimension(video, "width"@),
        info.rotation == 0 || info.rotation == 180 ==> info.width == dimension(video, "width"@) && info.height
            == dimension(video, "height"@),
        info.has_audio == audio is Some,
        info.size_bytes == size_bytes,
        info.duration >= 0,
        info.fps > 0,
{
}

/// `j` is a whole number, written as a number or as a text.
pub open spec fn is_whole(j: Option<Json>, n: nat) -> bool {
    &&& j is Some
    &&& match j->0.number() {
        Some(s) => s == number::decimal(n),
        None => j->0.text() is Some && text::trimmed(j->0.text()->0) == number::decimal(n),
    }
}

proof fn lemma_whole(j: Option<Json>, n: nat)
    requires
        is_whole(j, n),
        n <= 9_000_000_000,
    ensures
        number_in(j, 0) == Some(Reading::Value(n as i64)),
        number_in(j, 9) == Some(Reading::Value((n * 1_000_000_000) as i64)),
{
    assert(reading::pow10(9) == 1_000_000_000 && reading::pow10(0) == 1) by {
        reveal_with_fuel(reading::pow10, 10);
    }
    let one = reading::pow10(9);
    let unit = reading::pow10(0);
    assert(n * one == n * 1_000_000_000 && n * unit == n) by (nonlinear_arith)
        requires
            one == 1_000_000_000,
            unit == 1,
    ;
    reading::law_whole_numbers_read_back(n, 9);
    reading::law_whole_numbers_read_back(n, 0);
}

/// A clip is as long as its container says in seconds, or where that says nothing or nothing more
/// than zero, as its picture says; and it is as wide and as high as it says in pixels.
pub proof fn law_a_clip_is_as_long_as_it_says(root: Json, video: Json, key: Seq<char>, n: nat)
    requires
        0 < n <= 9_000_000_000,
    ensures
        is_whole(json::member_of(root.get("format"@), "duration"@), n) ==> length_of(root, video) == n
            * 1_000_000_000,
        is_whole(video.get("duration"@), n) && (json::member_of(root.get("format"@), "duration"@) is None
            || is_whole(json::member_of(root.get("format"@), "duration"@), 0)) ==> length_of(root, video)
            == n * 1_000_000_000,
        is_whole(video.get(key), n) ==> dimension(video, key) == n,
        video.get(key) is None ==> dimension(video, key) == 0,
{
    let whole = json::member_of(root.get("format"@), "duration"@);
    if is_whole(whole, n) {
        lemma_whole(whole, n);
    }
    if is_whole(whole, 0) {
        lemma_whole(whole, 0);
    }
    if is_whole(video.get("duration"@), n) {
        lemma_whole(video.get("duration"@), n);
    }
    if is_whole(video.get(key), n) {
        lemma_whole(video.get(key), n);
    }
}

proof fn lemma_side_rotation(entries: Seq<Json>, from: int, at: int)
    requires
        0 <= from <= at < entries.len(),
        forall|i: int| from <= i < at ==> (#[trigger] entries[i]).get("rotation"@) is None,
        number_in(entries[at].get("rotation"@), 0) is Some,
    ensures
        side_rotation(entries, from) == number_in(entries[at].get("rotation"@), 0),
    decreases at - from,
{
    if from < at {
        assert(entries[from].get("rotation"@) is None);
        lemma_side_rotation(entries, from + 1, at);
    }
}

proof fn lemma_no_side_rotation(entries: Seq<Json>, from: int)
    requires
        0 <= from <= entries.len(),
        forall|i: int| from <= i < entries.len() ==> (#[trigger] entries[i]).get("rotation"@) is None,
    ensures
        side_rotation(entries, from) is None,
    decreases entries.len() - from,
{
    if from < entries.len() {
        assert(entries[from].get("rotation"@) is None);
        lemma_no_side_rotation(entries, from + 1);
    }
}

/// A clip is turned as the first of its side data that speaks of a rotation says, whatever its tag
/// says; as the tag says where no side data does; and not at all where neither does.
pub proof fn law_the_side_data_turns_before_the_tag(stream: Json, list: Json, entries: Seq<Json>, at: int, n: nat)
    requires
        stream.get("side_data_list"@) == Some(list),
        list.list() == Some(entries),
        0 <= at <= entries.len(),
        forall|i: int| 0 <= i < at ==> (#[trigger] entries[i]).get("rotation"@) is None,
        n <= 9_000_000_000,
    ensures
        at < entries.len() && is_whole(entries[at].get("rotation"@), n) ==> said_rotation(stream)
            == Reading::Value(n as i64),
        at == entries.len() && is_whole(json::member_of(stream.get("tags"@), "rotate"@), n)
            ==> said_rotation(stream) == Reading::Value(n as i64),
        at == entries.len() && json::member_of(stream.get("tags"@), "rotate"@) is None ==> said_rotation(
            stream,
        ) == Reading::Value(0),
{
    if at < entries.len() {
        if is_whole(entries[at].get("rotation"@), n) {
            lemma_whole(entries[at].get("rotation"@), n);
            lemma_side_rotation(entries, 0, at);
        }
    } else {
        lemma_no_side_rotation(entries, 0);
        if is_whole(json::member_of(stream.get("tags"@), "rotate"@), n) {
            lemma_whole(json::member_of(stream.get("tags"@), "rotate"@), n);
        }
    }
}

} // verus!
