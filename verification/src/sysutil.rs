//! What the application asks of the machine around it: is FFmpeg there, what is in a file, a
//! strip of thumbnails, a preview that plays.

use std::collections::hash_map::DefaultHasher;
use std::hash::Hash;
use std::hash::Hasher;

use vstd::prelude::*;
use vstd::std_specs::hash::DefaultHasherAdditionalSpecFns;
use vstd::string::*;

use crate::base64;
use crate::base64::base64_encode;
use crate::number;
use crate::number::{div_even, push_decimal, push_digits, signed_text};
use crate::text;
use crate::text::{chars_end, chars_of, comes_before, joined_to, lowercase, split, split_words, text_between, text_of, trim_chars, trim_text, CharSet};
use crate::tools;
use crate::tools::{split_path_list, DirFilter};

verus! {

broadcast use {crate::text::texts_push, crate::text::texts_add};

// --- Is FFmpeg there? ---

#[derive(Debug, Clone)]
pub struct FfmpegStatus {
    pub available: bool,
    pub version: Option<String>,
}

/// The version a build names in its first line: the third word in every build there has been.
pub open spec fn version_in(s: Seq<char>) -> Option<Seq<char>> {
    let w = text::words(s.take(text::next_at(s, '\n', 0)));
    if w.len() > 2 && w[0] == "ffmpeg"@ && w[1] == "version"@ {
        Some(w[2])
    } else {
        None
    }
}

pub fn parse_version_line(s: &str) -> (r: Option<String>)
    ensures
        text::maybe_text(r) == version_in(s@),
{
    let chars = chars_of(s);
    let end = text::find_char(&chars, '\n', 0);
    let line = text::chars_between(&chars, 0, end);
    proof {
        assert(line@ =~= s@.take(end as int));
    }
    let w = split_words(&line);
    let ghost spelled = text::spelled(w@);
    proof {
        assert(spelled.len() == w.len());
    }
    if w.len() <= 2 {
        return None;
    }
    proof {
        assert(spelled[0] == w@[0]@ && spelled[1] == w@[1]@ && spelled[2] == w@[2]@);
    }
    let first = text_of(&w[0]);
    let second = text_of(&w[1]);
    if *first.as_str() == *"ffmpeg" && *second.as_str() == *"version" {
        Some(text_of(&w[2]))
    } else {
        None
    }
}

/// Whether FFmpeg can be used, from what its version run printed.
pub fn status_of(printed: Option<&str>) -> (r: FfmpegStatus)
    ensures
        r.available == (printed is Some),
        printed matches Some(s) ==> text::maybe_text(r.version) == version_in(s@),
        printed is None ==> r.version is None,
{
    match printed {
        Some(s) => FfmpegStatus { available: true, version: parse_version_line(s) },
        None => FfmpegStatus { available: false, version: None },
    }
}

// --- Why FFmpeg was not found ---

/// What a scope's search path is asked for with. It is stored with references to variables in it,
/// which can be filled in on the way.
pub open spec fn query_text(scope: Seq<char>, filled_in: bool) -> Seq<char> {
    let value = "[Environment]::GetEnvironmentVariable('Path','"@ + scope + "')"@;
    "[Console]::OutputEncoding=[Text.Encoding]::UTF8; "@ + (if filled_in {
        "[Environment]::ExpandEnvironmentVariables("@ + value + ")"@
    } else {
        value
    })
}

pub fn path_query(scope: &str, filled_in: bool) -> (r: String)
    ensures
        r@ == query_text(scope@, filled_in),
{
    let mut out = "[Console]::OutputEncoding=[Text.Encoding]::UTF8; ".to_string();
    if filled_in {
        out.append("[Environment]::ExpandEnvironmentVariables(");
    }
    out.append("[Environment]::GetEnvironmentVariable('Path','");
    out.append(scope);
    out.append("')");
    if filled_in {
        out.append(")");
    }
    proof {
        assert(out@ =~= query_text(scope@, filled_in));
    }
    out
}

/// What was answered, unless that was nothing.
pub fn path_answer(printed: &str) -> (r: Option<String>)
    ensures
        text::maybe_text(r) == (if text::trimmed(printed@).len() > 0 {
            Some(text::trimmed(printed@))
        } else {
            None
        }),
{
    let kept = trim_text(printed);
    if kept.as_str().unicode_len() > 0 {
        Some(kept)
    } else {
        None
    }
}

/// One place that was looked in: where the place comes from, the candidate, and what came of it.
pub type CheckRow = (&'static str, String, String);

pub open spec fn row_text(row: CheckRow) -> Seq<char> {
    "  ["@ + row.0@ + "] "@ + row.1@ + " -> "@ + row.2@ + "\n"@
}

/// The lines for the first `k` rows.
pub open spec fn rows_text(rows: Seq<CheckRow>, k: int) -> Seq<char>
    decreases k,
{
    if k <= 0 {
        Seq::empty()
    } else {
        rows_text(rows, k - 1) + row_text(rows[k - 1])
    }
}

/// A line of the record that tells one thing.
pub open spec fn told(label: Seq<char>, value: Seq<char>) -> Seq<char> {
    label + ": "@ + value + "\n"@
}

fn tell(out: &mut String, label: &str, value: &str)
    ensures
        final(out)@ == old(out)@ + told(label@, value@),
{
    out.append(label);
    out.append(": ");
    out.append(value);
    out.append("\n");
    proof {
        assert(out@ =~= old(out)@ + told(label@, value@));
    }
}

/// The record of a check that failed.
pub open spec fn check_log(stamp: Seq<char>, path_value: Seq<char>, rows: Seq<CheckRow>) -> Seq<char> {
    "FlipperClipper ffmpeg check - "@ + stamp + "\n"@ + told(
        "verdict"@,
        "ffmpeg could not be run"@,
    ) + told("inherited PATH"@, path_value) + "tried, in order:\n"@ + rows_text(
        rows,
        rows.len() as int,
    )
}

/// The record of a check that failed: one line for every place, in the order they were tried.
pub fn render_check_log(stamp: &str, path_value: &str, rows: &[CheckRow]) -> (r: String)
    ensures
        r@ == check_log(stamp@, path_value@, rows@),
{
    let mut out = "FlipperClipper ffmpeg check - ".to_string();
    out.append(stamp);
    out.append("\n");
    tell(&mut out, "verdict", "ffmpeg could not be run");
    tell(&mut out, "inherited PATH", path_value);
    out.append("tried, in order:\n");
    let ghost head = out@;
    let mut i: usize = 0;
    proof {
        assert(out@ =~= head + rows_text(rows@, 0));
    }
    while i < rows.len()
        invariant
            i <= rows.len(),
            out@ == head + rows_text(rows@, i as int),
        decreases rows.len() - i,
    {
        let ghost before = out@;
        out.append("  [");
        out.append(rows[i].0);
        out.append("] ");
        out.append(rows[i].1.as_str());
        out.append(" -> ");
        out.append(rows[i].2.as_str());
        out.append("\n");
        proof {
            assert(out@ =~= before + row_text(rows@[i as int]));
            assert(out@ =~= head + rows_text(rows@, i + 1));
        }
        i += 1;
    }
    out
}

/// A place to look in, and where it comes from.
pub struct Place {
    pub tier: &'static str,
    pub dir: String,
}

/// What a list of places spells.
pub open spec fn spelled_places(v: Seq<Place>) -> Seq<(Seq<char>, Seq<char>)> {
    v.map_values(|p: Place| (p.tier@, p.dir@))
}

/// Folders that come from one place.
pub open spec fn from_tier(tier: Seq<char>, dirs: Seq<Seq<char>>) -> Seq<(Seq<char>, Seq<char>)> {
    dirs.map_values(|d: Seq<char>| (tier, d))
}

/// Folders of a `Path` value, where there is one.
pub open spec fn from_path(tier: Seq<char>, value: Option<Seq<char>>) -> Seq<(Seq<char>, Seq<char>)> {
    match value {
        Some(v) => from_tier(tier, tools::path_entries(v)),
        None => Seq::empty(),
    }
}

/// Every place a search looks in, in its order.
pub open spec fn all_places(
    managed: Option<Seq<char>>,
    path: Option<Seq<char>>,
    user: Option<Seq<char>>,
    machine: Option<Seq<char>>,
    known: Seq<Seq<char>>,
) -> Seq<(Seq<char>, Seq<char>)> {
    (match managed {
        Some(dir) => seq![("managed"@, dir)],
        None => Seq::empty(),
    }) + from_path("PATH"@, path) + from_path("registry User"@, user) + from_path(
        "registry Machine"@,
        machine,
    ) + from_tier("known dir"@, known)
}

fn push_places(out: &mut Vec<Place>, tier: &'static str, dirs: Vec<String>)
    ensures
        spelled_places(final(out)@) == spelled_places(old(out)@) + from_tier(
            tier@,
            text::texts(dirs@),
        ),
{
    let mut i: usize = 0;
    proof {
        assert(spelled_places(out@) =~= spelled_places(old(out)@) + from_tier(
            tier@,
            text::texts(dirs@),
        ).take(0));
    }
    while i < dirs.len()
        invariant
            i <= dirs.len(),
            spelled_places(out@) == spelled_places(old(out)@) + from_tier(
                tier@,
                text::texts(dirs@),
            ).take(i as int),
        decreases dirs.len() - i,
    {
        let ghost before = out@;
        let place = Place { tier, dir: text::copy(&dirs[i]) };
        let ghost spelled = (place.tier@, place.dir@);
        out.push(place);
        i += 1;
        proof {
            assert(text::texts(dirs@)[i - 1] == dirs@[i - 1]@);
            assert(from_tier(tier@, text::texts(dirs@))[i - 1] == spelled);
            assert(spelled_places(out@) =~= spelled_places(before).push(spelled));
            assert(spelled_places(out@) =~= spelled_places(old(out)@) + from_tier(
                tier@,
                text::texts(dirs@),
            ).take(i as int));
        }
    }
    proof {
        assert(from_tier(tier@, text::texts(dirs@)).take(dirs.len() as int) =~= from_tier(
            tier@,
            text::texts(dirs@),
        ));
    }
}

fn push_path(out: &mut Vec<Place>, tier: &'static str, value: Option<&str>)
    ensures
        spelled_places(final(out)@) == spelled_places(old(out)@) + from_path(
            tier@,
            match value {
                Some(v) => Some(v@),
                None => None,
            },
        ),
{
    match value {
        Some(v) => {
            push_places(out, tier, split_path_list(v));
        },
        None => {
            proof {
                assert(spelled_places(out@) =~= spelled_places(out@) + Seq::empty());
            }
        },
    }
}

/// Every place a search looks in, in its order: a record that named another would describe a
/// search the application does not run.
pub fn diagnostic_dirs(
    managed: Option<String>,
    path: Option<&str>,
    user: Option<&str>,
    machine: Option<&str>,
    known: Vec<String>,
) -> (r: Vec<Place>)
    ensures
        spelled_places(r@) == all_places(
            text::maybe_text(managed),
            match path {
                Some(v) => Some(v@),
                None => None,
            },
            match user {
                Some(v) => Some(v@),
                None => None,
            },
            match machine {
                Some(v) => Some(v@),
                None => None,
            },
            text::texts(known@),
        ),
{
    let mut out: Vec<Place> = Vec::new();
    if let Some(dir) = managed {
        out.push(Place { tier: "managed", dir });
    }
    proof {
        assert(spelled_places(out@) =~= (match text::maybe_text(managed) {
            Some(dir) => seq![("managed"@, dir)],
            None => Seq::empty(),
        }));
    }
    push_path(&mut out, "PATH", path);
    push_path(&mut out, "registry User", user);
    push_path(&mut out, "registry Machine", machine);
    push_places(&mut out, "known dir", known);
    out
}

/// The first spelling of each place among the first `k`, in order.
pub open spec fn distinct_places(places: Seq<(Seq<char>, Seq<char>)>, k: int) -> Seq<
    (Seq<char>, Seq<char>),
>
    decreases k,
{
    if k <= 0 {
        Seq::empty()
    } else {
        let before = distinct_places(places, k - 1);
        if tools::is_new(before.map_values(|p: (Seq<char>, Seq<char>)| p.1), places[k - 1].1) {
            before.push(places[k - 1])
        } else {
            before
        }
    }
}

/// Keeps the first spelling of each place.
pub fn distinct_dirs(places: Vec<Place>) -> (r: Vec<Place>)
    ensures
        spelled_places(r@) == distinct_places(spelled_places(places@), places.len() as int),
{
    let mut filter = DirFilter::new();
    let mut out: Vec<Place> = Vec::new();
    let mut i: usize = 0;
    let ghost all = spelled_places(places@);
    proof {
        assert(spelled_places(out@) =~= distinct_places(all, 0));
        assert(filter@ =~= distinct_places(all, 0).map_values(|p: (Seq<char>, Seq<char>)| p.1));
    }
    while i < places.len()
        invariant
            i <= places.len(),
            all == spelled_places(places@),
            spelled_places(out@) == distinct_places(all, i as int),
            filter@ == distinct_places(all, i as int).map_values(|p: (Seq<char>, Seq<char>)| p.1),
        decreases places.len() - i,
    {
        let place = &places[i];
        let ghost before = distinct_places(all, i as int);
        let ghost kept = out@;
        proof {
            assert(all[i as int] == (place.tier@, place.dir@));
        }
        if filter.accept(place.dir.as_str()) {
            out.push(Place { tier: place.tier, dir: text::copy(&place.dir) });
            proof {
                assert(spelled_places(out@) =~= spelled_places(kept).push(all[i as int]));
                assert(filter@ =~= before.push(all[i as int]).map_values(
                    |p: (Seq<char>, Seq<char>)| p.1,
                ));
            }
        }
        i += 1;
    }
    out
}

/// At most so many characters of a text, and a mark where it was cut.
pub open spec fn clipped(s: Seq<char>, max_chars: int) -> Seq<char> {
    if s.len() > max_chars {
        s.take(max_chars) + "..."@
    } else {
        s
    }
}

pub fn clip_to(s: &str, max_chars: usize) -> (r: String)
    ensures
        r@ == clipped(s@, max_chars as int),
{
    let chars = chars_of(s);
    if chars.len() > max_chars {
        let mut out = text_between(&chars, 0, max_chars);
        proof {
            assert(chars@.subrange(0, max_chars as int) =~= s@.take(max_chars as int));
        }
        out.append("...");
        return out;
    }
    s.to_string()
}

/// The last line that says something.
pub open spec fn last_meaningful(s: Seq<char>) -> Option<Seq<char>> {
    let lines = text::pieces(s, '\n');
    text::last_spoken(lines, lines.len() as int)
}

pub fn last_meaningful_line(s: &str) -> (r: Option<String>)
    ensures
        text::maybe_text(r) == last_meaningful(s@),
{
    let lines = split(&chars_of(s), '\n');
    let ghost spelled = text::spelled(lines@);
    let mut k: usize = lines.len();
    proof {
        assert(spelled.len() == lines.len());
    }
    while k > 0
        invariant
            k <= lines.len(),
            spelled == text::spelled(lines@),
            text::last_spoken(spelled, lines.len() as int) == text::last_spoken(spelled, k as int),
            spelled == text::pieces(s@, '\n'),
            spelled.len() == lines.len(),
        decreases k,
    {
        let line = text::chars_between(&lines[k - 1], 0, lines[k - 1].len());
        proof {
            assert(line@ =~= spelled[k - 1]);
        }
        let kept = trim_chars(line, &CharSet::White);
        if kept.len() > 0 {
            return Some(text_of(&kept));
        }
        k -= 1;
    }
    None
}

/// How a version run went.
#[derive(Debug)]
pub enum VersionRun {
    Ran,
    /// It ended badly: its status as it is written out, and what it said.
    Failed { status: String, stderr: String },
    /// It could not be started, for this reason.
    NotStarted(String),
}

/// What the record says of a version run.
pub open spec fn outcome_text(run: VersionRun) -> Seq<char> {
    match run {
        VersionRun::Ran => "ran, exit 0"@,
        VersionRun::Failed { status, stderr } => match last_meaningful(stderr@) {
            Some(line) => status@ + ", "@ + clipped(line, 160),
            None => status@,
        },
        VersionRun::NotStarted(error) => "could not start: "@ + error@,
    }
}

pub fn version_outcome(run: &VersionRun) -> (r: String)
    ensures
        r@ == outcome_text(*run),
{
    match run {
        VersionRun::Ran => "ran, exit 0".to_string(),
        VersionRun::Failed { status, stderr } => {
            match last_meaningful_line(stderr.as_str()) {
                Some(line) => {
                    let mut out = text::copy(status);
                    out.append(", ");
                    out.append(clip_to(line.as_str(), 160).as_str());
                    out
                },
                None => text::copy(status),
            }
        },
        VersionRun::NotStarted(error) => joined_to("could not start: ", text::copy(error)),
    }
}

/// What the record says of the second look that the search was given.
pub fn second_look(found: Option<&str>) -> (r: String)
    ensures
        r@ == (match found {
            Some(path) => "found at "@ + path@,
            None => "still not found"@,
        }),
{
    match found {
        Some(path) => joined_to("found at ", path.to_string()),
        None => "still not found".to_string(),
    }
}

// --- What is in a file ---

/// The command that probes a file.
pub open spec fn probe_command(path: Seq<char>) -> Seq<Seq<char>> {
    seq!["-v"@, "quiet"@, "-print_format"@, "json"@, "-show_format"@, "-show_streams"@, path]
}

/// The command that probes a file.
pub fn probe_args(path: &str) -> (r: Vec<String>)
    ensures
        text::texts(r@) == seq![
            "-v"@,
            "quiet"@,
            "-print_format"@,
            "json"@,
            "-show_format"@,
            "-show_streams"@,
            path@,
        ],
        text::texts(r@) == probe_command(path@),
{
    let mut args: Vec<String> = Vec::new();
    args.push("-v".to_string());
    args.push("quiet".to_string());
    args.push("-print_format".to_string());
    args.push("json".to_string());
    args.push("-show_format".to_string());
    args.push("-show_streams".to_string());
    args.push(path.to_string());
    args
}

// --- Thumbnails ---

pub open spec fn bounded(v: int, low: int, high: int) -> int {
    if v < low {
        low
    } else if v > high {
        high
    } else {
        v
    }
}

fn bound(v: u32, low: u32, high: u32) -> (r: u32)
    requires
        low <= high,
    ensures
        r == bounded(v as int, low as int, high as int),
        low <= r <= high,
{
    if v < low {
        low
    } else if v > high {
        high
    } else {
        v
    }
}

/// `n / d` with six decimals.
pub open spec fn six_decimals(n: int, d: int) -> Seq<char> {
    let millionths = number::nearest_even(n * 1_000_000, d);
    number::decimal((millionths / 1_000_000) as nat) + "."@ + number::digits(
        (millionths % 1_000_000) as nat,
        6,
    )
}

/// The command that draws a strip of `count` thumbnails, `height` pixels high, from a clip of a
/// length, into files of a pattern. It is one pass: a seek for each thumbnail would cost a process
/// each.
pub open spec fn filmstrip_command(
    path: Seq<char>,
    pattern: Seq<char>,
    count: int,
    height: int,
    length: int,
) -> Seq<Seq<char>> {
    seq![
        "-hide_banner"@,
        "-loglevel"@,
        "error"@,
        "-y"@,
        "-i"@,
        path,
        "-vf"@,
        "fps="@ + six_decimals(bounded(count, 1, 64) * 1_000_000_000, length) + ",scale=-2:"@
            + number::signed(bounded(height, 16, 240)),
        "-frames:v"@,
        number::signed(bounded(count, 1, 64)),
        "-an"@,
        "-sn"@,
        "-q:v"@,
        "6"@,
        pattern,
    ]
}

/// The command that draws a strip of thumbnails; refused for a clip with no length.
pub fn filmstrip_args(path: &str, pattern: &str, count: u32, height: u32, length: i64) -> (r: Result<
    Vec<String>,
    String,
>)
    ensures
        r is Ok <==> length > 0,
        r matches Ok(args) ==> text::texts(args@) == filmstrip_command(
            path@,
            pattern@,
            count as int,
            height as int,
            length as int,
        ),
        r matches Err(e) ==> e@ == "That video has no duration to draw a filmstrip from."@,
{
    if length <= 0 {
        return Err("That video has no duration to draw a filmstrip from.".to_string());
    }
    let n = bound(count, 1, 64);
    let h = bound(height, 16, 240);
    let mut filter = "fps=".to_string();
    let ghost head = filter@;
    let millionths: u128 = div_even(n as u128 * 1_000_000_000_000_000, length as u128);
    push_decimal(&mut filter, millionths / 1_000_000);
    filter.append(".");
    push_digits(&mut filter, millionths % 1_000_000, 6);
    proof {
        assert(filter@ =~= head + six_decimals(n * 1_000_000_000, length as int));
    }
    filter.append(",scale=-2:");
    filter.append(signed_text(h as i64).as_str());
    let mut args: Vec<String> = Vec::new();
    args.push("-hide_banner".to_string());
    args.push("-loglevel".to_string());
    args.push("error".to_string());
    args.push("-y".to_string());
    args.push("-i".to_string());
    args.push(path.to_string());
    args.push("-vf".to_string());
    args.push(filter);
    args.push("-frames:v".to_string());
    args.push(signed_text(n as i64));
    args.push("-an".to_string());
    args.push("-sn".to_string());
    args.push("-q:v".to_string());
    args.push("6".to_string());
    args.push(pattern.to_string());
    proof {
        assert(text::texts(args@) =~= filmstrip_command(
            path@,
            pattern@,
            count as int,
            height as int,
            length as int,
        ));
    }
    Ok(args)
}

/// One thumbnail as a page can show it.
pub fn strip_frame(bytes: &[u8]) -> (r: String)
    ensures
        r@ == "data:image/jpeg;base64,"@ + base64::encoded(bytes@),
{
    joined_to("data:image/jpeg;base64,", base64_encode(bytes))
}

/// Whether a file in the folder of the thumbnails is one of them: its extension is `jpg`, with
/// something in front of it.
pub open spec fn is_thumbnail(name: Seq<char>) -> bool {
    name.len() > 4 && text::ends(name, ".jpg"@)
}

/// Texts in order: none sorts before an earlier one.
pub open spec fn in_order(list: Seq<Seq<char>>) -> bool {
    forall|i: int, j: int|
        0 <= i < j < list.len() ==> !text::sorts_before(#[trigger] list[j], #[trigger] list[i])
}

/// Where a text goes among texts in order: behind all that do not come after it.
fn place_of(name: &str, list: &Vec<String>) -> (r: usize)
    requires
        in_order(text::texts(list@)),
    ensures
        r <= list.len(),
        in_order(text::texts(list@).insert(r as int, name@)),
{
    let ghost all = text::texts(list@);
    let mut at: usize = 0;
    proof {
        assert(all.len() == list.len());
    }
    while at < list.len() && !comes_before(name, list[at].as_str())
        invariant
            all == text::texts(list@),
            all.len() == list.len(),
            at <= list.len(),
            forall|k: int| 0 <= k < at ==> !text::sorts_before(name@, #[trigger] all[k]),
        decreases list.len() - at,
    {
        proof {
            assert(all[at as int] == list[at as int]@);
        }
        at += 1;
    }
    proof {
        let put = all.insert(at as int, name@);
        if at < list.len() {
            assert(all[at as int] == list[at as int]@);
        }
        assert forall|i: int, j: int| 0 <= i < j < put.len() implies !text::sorts_before(
            #[trigger] put[j],
            #[trigger] put[i],
        ) by {
            if i == at {
                let later = all[j - 1];
                assert(put[j] == later);
                if text::sorts_before(later, name@) {
                    text::lemma_sorts_on(later, name@, all[at as int]);
                    if j - 1 == at {
                        text::lemma_one_way(later, later);
                    }
                }
            } else if j == at {
                assert(put[i] == all[i]);
            } else {
                let (x, y) = (if i < at { i } else { i - 1 }, if j < at { j } else { j - 1 });
                assert(put[i] == all[x] && put[j] == all[y]);
            }
        }
    }
    at
}

/// The files of a filmstrip among the names in its folder, in order: the names are padded with
/// zeros, so that is the order in which they play.
pub fn filmstrip_frames(names: Vec<String>) -> (r: Vec<String>)
    ensures
        in_order(text::texts(r@)),
        text::texts(r@).to_multiset() == text::texts(names@).filter(
            |name: Seq<char>| is_thumbnail(name),
        ).to_multiset(),
{
    let ghost wanted = |name: Seq<char>| is_thumbnail(name);
    let ghost all = text::texts(names@);
    let mut out: Vec<String> = Vec::new();
    let mut i: usize = 0;
    proof {
        reveal(Seq::filter);
        assert(all.take(0).filter(wanted) =~= Seq::empty());
        assert(text::texts(out@) =~= Seq::empty());
        assert(all.len() == names.len());
    }
    while i < names.len()
        invariant
            i <= names.len(),
            all == text::texts(names@),
            all.len() == names.len(),
            wanted == (|name: Seq<char>| is_thumbnail(name)),
            in_order(text::texts(out@)),
            text::texts(out@).to_multiset() == all.take(i as int).filter(wanted).to_multiset(),
        decreases names.len() - i,
    {
        let name = text::copy(&names[i]);
        let spelled = chars_of(name.as_str());
        let ghost before = text::texts(out@);
        proof {
            let next = all.take(i + 1);
            reveal(Seq::filter);
            assert(next.drop_last() =~= all.take(i as int));
            assert(next.last() == name@);
            if is_thumbnail(name@) {
                vstd::seq_lib::to_multiset_build(all.take(i as int).filter(wanted), name@);
            }
        }
        if spelled.len() > 4 && chars_end(&spelled, ".jpg") {
            let at = place_of(name.as_str(), &out);
            out.insert(at, name);
            proof {
                let put = before.insert(at as int, name@);
                assert(text::texts(out@) =~= put);
                put.to_multiset_ensures();
                assert(put.remove(at as int) =~= before);
                assert(put.to_multiset().count(name@) > 0) by {
                    assert(put[at as int] == name@);
                }
                assert(put.to_multiset() =~= before.to_multiset().insert(name@));
            }
        }
        i += 1;
    }
    proof {
        assert(all.take(i as int) =~= all);
    }
    out
}

// --- A preview that plays ---

/// The command that makes a small copy of a clip for the preview.
pub open spec fn proxy_command(path: Seq<char>, output: Seq<char>) -> Seq<Seq<char>> {
    seq![
        "-hide_banner"@,
        "-loglevel"@,
        "error"@,
        "-y"@,
        "-i"@,
        path,
        "-vf"@,
        "scale=w='min(960,iw)':h=-2"@,
        "-c:v"@,
        "libx264"@,
        "-preset"@,
        "ultrafast"@,
        "-crf"@,
        "28"@,
        "-pix_fmt"@,
        "yuv420p"@,
        "-c:a"@,
        "aac"@,
        "-b:a"@,
        "128k"@,
        "-movflags"@,
        "+faststart"@,
        output,
    ]
}

/// The command that makes a small copy of a clip for the preview. The quotes keep the comma from
/// reading as the end of the filter.
pub fn proxy_args(path: &str, output: &str) -> (r: Vec<String>)
    ensures
        text::texts(r@) == seq![
            "-hide_banner"@,
            "-loglevel"@,
            "error"@,
            "-y"@,
            "-i"@,
            path@,
            "-vf"@,
            "scale=w='min(960,iw)':h=-2"@,
            "-c:v"@,
            "libx264"@,
            "-preset"@,
            "ultrafast"@,
            "-crf"@,
            "28"@,
            "-pix_fmt"@,
            "yuv420p"@,
            "-c:a"@,
            "aac"@,
            "-b:a"@,
            "128k"@,
            "-movflags"@,
            "+faststart"@,
            output@,
        ],
        text::texts(r@) == proxy_command(path@, output@),
{
    let mut args: Vec<String> = Vec::new();
    args.push("-hide_banner".to_string());
    args.push("-loglevel".to_string());
    args.push("error".to_string());
    args.push("-y".to_string());
    args.push("-i".to_string());
    args.push(path.to_string());
    args.push("-vf".to_string());
    args.push("scale=w='min(960,iw)':h=-2".to_string());
    args.push("-c:v".to_string());
    args.push("libx264".to_string());
    args.push("-preset".to_string());
    args.push("ultrafast".to_string());
    args.push("-crf".to_string());
    args.push("28".to_string());
    args.push("-pix_fmt".to_string());
    args.push("yuv420p".to_string());
    args.push("-c:a".to_string());
    args.push("aac".to_string());
    args.push("-b:a".to_string());
    args.push("128k".to_string());
    args.push("-movflags".to_string());
    args.push("+faststart".to_string());
    args.push(output.to_string());
    args
}

/// What a text hands to a hasher, write by write.
pub uninterp spec fn hashed_writes(s: Seq<char>) -> Seq<Seq<u8>>;

/// `Hash::hash` for a text adds to a hasher what the text alone decides, which goes by the name
/// [`hashed_writes`].
#[verifier::external_body]
fn feed_text(s: &str, hasher: &mut DefaultHasher)
    ensures
        final(hasher)@ == old(hasher)@ + hashed_writes(s@),
{
    s.hash(hasher)
}

/// The number that a fresh hasher makes of a text. Which number it is depends on the standard
/// library the program was built with.
pub open spec fn text_hash(s: Seq<char>) -> u64 {
    DefaultHasher::spec_finish(hashed_writes(s))
}

fn hash_text(s: &str) -> (r: u64)
    ensures
        r == text_hash(s@),
{
    let mut hasher = DefaultHasher::new();
    feed_text(s, &mut hasher);
    proof {
        assert(hasher@ =~= hashed_writes(s@));
    }
    hasher.finish()
}

/// The character of one hexadecimal digit.
pub open spec fn hex_char(d: int) -> char {
    if d < 10 {
        (48 + d) as char
    } else {
        (97 + (d - 10)) as char
    }
}

/// The last `places` hexadecimal digits of a number.
pub open spec fn hex_digits(n: nat, places: nat) -> Seq<char>
    decreases places,
{
    if places == 0 {
        Seq::empty()
    } else {
        hex_digits(n / 16, (places - 1) as nat).push(hex_char((n % 16) as int))
    }
}

fn push_hex(out: &mut String, n: u64, places: u32)
    ensures
        final(out)@ == old(out)@ + hex_digits(n as nat, places as nat),
    decreases places,
{
    if places > 0 {
        push_hex(out, n / 16, places - 1);
        let d: u8 = (n % 16) as u8;
        if d < 10 {
            out.push((48u8 + d) as char);
        } else {
            out.push((97u8 + (d - 10)) as char);
        }
    }
    proof {
        assert(out@ =~= old(out)@ + hex_digits(n as nat, places as nat));
    }
}

/// A number as sixteen hexadecimal digits.
pub fn hex16(n: u64) -> (r: String)
    ensures
        r@ == hex_digits(n as nat, 16),
{
    let mut out = String::new();
    push_hex(&mut out, n, 16);
    proof {
        assert(out@ =~= hex_digits(n as nat, 16));
    }
    out
}

/// A name for a path that does not depend on the case it is spelled in, so that one file has one
/// preview.
pub fn path_key(path: &str) -> (r: String)
    ensures
        r@ == hex_digits(text_hash(text::lowercased(path@)) as nat, 16),
{
    hex16(hash_text(lowercase(path).as_str()))
}

/// The file that the preview of a clip goes to, named after the clip rather than the time, so that
/// opening the clip again writes over it.
pub fn proxy_name(path: &str) -> (r: String)
    ensures
        r@ == "flipperclipper-proxy-"@ + hex_digits(text_hash(text::lowercased(path@)) as nat, 16)
            + ".mp4"@,
{
    let mut out = joined_to("flipperclipper-proxy-", path_key(path));
    out.append(".mp4");
    out
}

/// Two spellings of one path have one key.
pub proof fn law_one_key_for_each_spelling(a: Seq<char>, b: Seq<char>)
    requires
        text::lowercased(a) == text::lowercased(b),
    ensures
        hex_digits(text_hash(text::lowercased(a)) as nat, 16) == hex_digits(
            text_hash(text::lowercased(b)) as nat,
            16,
        ),
{
}

/// Sixteen to the power `places`.
pub open spec fn pow16(places: nat) -> int
    decreases places,
{
    if places == 0 {
        1
    } else {
        16 * pow16((places - 1) as nat)
    }
}

/// Numbers that are spelled alike in hexadecimal are the same number, and a spelling is made of
/// digits and small letters alone.
pub proof fn law_hexadecimal_tells_numbers_apart(a: nat, b: nat, places: nat)
    requires
        a < pow16(places),
        b < pow16(places),
    ensures
        hex_digits(a, places) == hex_digits(b, places) ==> a == b,
        hex_digits(a, places).len() == places,
        forall|i: int|
            0 <= i < places ==> text::hex_digit(#[trigger] hex_digits(a, places)[i]) && !('A' <= hex_digits(
                a,
                places,
            )[i] <= 'Z'),
    decreases places,
{
    if places > 0 {
        let p = (places - 1) as nat;
        law_hexadecimal_tells_numbers_apart(a / 16, b / 16, p);
        let (x, y) = (hex_digits(a, places), hex_digits(b, places));
        let head = hex_digits(a / 16, p);
        assert(x.drop_last() =~= head);
        assert(y.drop_last() =~= hex_digits(b / 16, p));
        assert forall|i: int| 0 <= i < places implies text::hex_digit(#[trigger] x[i]) && !('A' <= x[i] <= 'Z') by {
            if i < p {
                assert(x[i] == head[i]);
            }
        }
        if x == y {
            assert(x.last() == y.last());
        }
    }
}

// --- What holds of a version run ---

/// FFmpeg's banner tells its version: the word behind `ffmpeg version`, whatever else the first
/// line and the lines behind it say.
pub proof fn law_the_banner_tells_the_version(version: Seq<char>, more: Seq<char>, below: Seq<char>)
    requires
        version.len() > 0,
        forall|i: int| 0 <= i < version.len() ==> !text::white(#[trigger] version[i]),
        more.len() > 0 ==> text::white(more[0]),
        forall|i: int| 0 <= i < more.len() ==> more[i] != '\n',
        below.len() > 0 ==> below[0] == '\n',
    ensures
        version_in("ffmpeg version "@ + version + more + below) == Some(version),
{
    reveal_strlit("ffmpeg version ");
    reveal_strlit("ffmpeg");
    reveal_strlit("version");
    let line = "ffmpeg version "@ + version + more;
    let s = line + below;
    text::lemma_next_at(s, '\n', 0);
    assert forall|i: int| 0 <= i < line.len() implies line[i] != '\n' by {
        if 15 <= i < 15 + version.len() {
            assert(line[i] == version[i - 15]);
        } else if i >= 15 {
            assert(line[i] == more[i - 15 - version.len()]);
        }
    }
    let at = text::next_at(s, '\n', 0);
    assert(at == line.len()) by {
        if at < line.len() {
            assert(s[at] == line[at]);
        } else if below.len() > 0 {
            assert(s[line.len() as int] == below[0]);
        }
    }
    assert(s.take(at) =~= line);
    let none = Seq::<char>::empty();
    let gap = seq![' '];
    let first = "ffmpeg"@;
    let second = "version"@;
    let third = gap + version + more;
    let rest = gap + second + third;
    assert(line =~= none + first + rest);
    assert(rest[0] == ' ');
    assert(third[0] == ' ');
    text::law_white_space_parts_words(none, first, rest);
    text::law_white_space_parts_words(gap, second, third);
    text::law_white_space_parts_words(gap, version, more);
}

/// A text that fits is told whole, and one that does not by its first characters and three dots.
pub proof fn law_a_long_text_is_cut(s: Seq<char>, max_chars: int)
    requires
        0 <= max_chars,
    ensures
        s.len() <= max_chars ==> clipped(s, max_chars) == s,
        s.len() > max_chars ==> {
            &&& clipped(s, max_chars).len() == max_chars + 3
            &&& forall|i: int| 0 <= i < max_chars ==> #[trigger] clipped(s, max_chars)[i] == s[i]
            &&& forall|i: int| max_chars <= i < max_chars + 3 ==> #[trigger] clipped(s, max_chars)[i] == '.'
        },
{
    reveal_strlit("...");
}

} // verus!
