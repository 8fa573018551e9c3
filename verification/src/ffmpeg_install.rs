//! Fetching a copy of FFmpeg for machines that have none.

use vstd::prelude::*;
use vstd::string::*;

use crate::text;
use crate::text::{chars_of, contains, copy, small_chars, starts, text_of};

verus! {

/// Versionless on purpose: it leads to the current release build.
pub const FFMPEG_URL: &'static str = "https://www.gyan.dev/ffmpeg/builds/ffmpeg-release-essentials.zip";

/// The folder a download is unpacked and tried in.
pub const STAGING: &'static str = "ffmpeg-staging";

/// Marks a program that was live when a newer one replaced it, for the next launch to sweep.
pub const ASIDE_PREFIX: &'static str = ".old-";

pub const ALREADY_RUNNING: &'static str = "FFmpeg is already downloading.";

pub const NO_APP_DIR: &'static str = "FlipperClipper could not find its own data folder, so FFmpeg cannot be installed.";

pub const NO_POWERSHELL: &'static str = "Windows PowerShell could not be started, so the FFmpeg download could not be unpacked.";

pub const UNPACK_FAILED: &'static str = "The FFmpeg download could not be unpacked. It needs about 450 MB of free space while it installs; free some space and try again.";

pub const ZIP_INCOMPLETE: &'static str = "The FFmpeg download did not contain ffmpeg.exe, so nothing was installed. Try again, or install FFmpeg yourself and restart FlipperClipper.";

pub const BINARY_WONT_RUN: &'static str = "The downloaded FFmpeg would not run on this PC, so it was discarded. Your antivirus may have quarantined it.";

pub const NO_CONNECTION: &'static str = "FFmpeg could not be downloaded: www.gyan.dev could not be reached. Check your internet connection, then try again.";

pub const NO_SPACE: &'static str = "There is not enough free space to install FFmpeg. It needs about 450 MB free while it installs, and about 200 MB afterwards.";

// --- One install at a time ---

/// Whether an install is under way.
#[derive(Debug, Clone, Copy, PartialEq, Eq, Structural)]
pub struct InstallSlot {
    pub installing: bool,
}

impl InstallSlot {
    pub fn new() -> (r: InstallSlot)
        ensures
            !r.installing,
    {
        InstallSlot { installing: false }
    }

    /// Begins an install; a second one is refused while it runs.
    pub fn begin(&mut self) -> (r: Result<(), String>)
        ensures
            r is Ok <==> !old(self).installing,
            final(self).installing,
            r matches Err(e) ==> e@ == ALREADY_RUNNING@,
    {
        if self.installing {
            return Err(ALREADY_RUNNING.to_string());
        }
        self.installing = true;
        Ok(())
    }

    /// Ends an install, however it went.
    pub fn end(&mut self)
        ensures
            !final(self).installing,
    {
        self.installing = false;
    }
}

// --- What was unpacked ---

/// The tools that are wanted out of the archive.
pub fn wanted_tools() -> (r: Vec<&'static str>)
    ensures
        r.len() == 2,
        r@[0]@ == "ffmpeg"@,
        r@[1]@ == "ffprobe"@,
{
    vec!["ffmpeg", "ffprobe"]
}

/// Whether a file of the archive is the wanted one, whatever the case of its name.
pub fn is_wanted(name: &str, wanted: &str) -> (r: bool)
    ensures
        r == (text::small_text(name@) == text::small_text(wanted@)),
{
    let a = text_of(&small_chars(&chars_of(name)));
    let b = text_of(&small_chars(&chars_of(wanted)));
    *a.as_str() == *b.as_str()
}

/// The files that were found for the tools, all of them or nothing.
pub fn staged_tools(found: Vec<Option<String>>) -> (r: Result<Vec<String>, String>)
    ensures
        r is Ok <==> forall|i: int| 0 <= i < found.len() ==> (#[trigger] found@[i]) is Some,
        r matches Ok(paths) ==> paths.len() == found.len() && forall|i: int|
            0 <= i < paths.len() ==> Some((#[trigger] paths@[i])@) == text::maybe_text(found@[i]),
        r matches Err(e) ==> e@ == ZIP_INCOMPLETE@,
{
    let mut paths: Vec<String> = Vec::new();
    let mut i: usize = 0;
    while i < found.len()
        invariant
            i <= found.len(),
            paths.len() == i,
            forall|j: int| 0 <= j < i ==> (#[trigger] found@[j]) is Some,
            forall|j: int| 0 <= j < i ==> Some((#[trigger] paths@[j])@) == text::maybe_text(found@[j]),
        decreases found.len() - i,
    {
        match &found[i] {
            Some(path) => {
                paths.push(copy(path));
            },
            None => {
                proof {
                    assert(found@[i as int] is None);
                }
                return Err(ZIP_INCOMPLETE.to_string());
            },
        }
        i += 1;
    }
    Ok(paths)
}

/// Nothing is published unless every tool has proved that it runs.
pub fn verify_staged(ran: &Vec<bool>) -> (r: Result<(), String>)
    ensures
        r is Ok <==> forall|i: int| 0 <= i < ran.len() ==> #[trigger] ran@[i],
        r matches Err(e) ==> e@ == BINARY_WONT_RUN@,
{
    let mut i: usize = 0;
    while i < ran.len()
        invariant
            i <= ran.len(),
            forall|j: int| 0 <= j < i ==> #[trigger] ran@[j],
        decreases ran.len() - i,
    {
        if !ran[i] {
            return Err(BINARY_WONT_RUN.to_string());
        }
        i += 1;
    }
    Ok(())
}

// --- Putting it into place ---

/// How often a rename is tried, a tenth of a second apart.
pub const RENAME_ATTEMPTS: u32 = 150;

/// What to do after an attempt to rename a file. One that has just been unpacked and run is not
/// always movable at once, and what holds it lets go within seconds.
#[derive(Debug, Clone, Copy, PartialEq, Eq, Structural)]
pub enum RenameStep {
    Done,
    WaitAndRetry,
    GiveUp,
}

/// What to do after attempt `attempt`, counted from zero.
pub fn after_rename(attempt: u32, renamed: bool) -> (r: RenameStep)
    ensures
        r == (if renamed {
            RenameStep::Done
        } else if attempt + 1 < RENAME_ATTEMPTS {
            RenameStep::WaitAndRetry
        } else {
            RenameStep::GiveUp
        }),
{
    if renamed {
        RenameStep::Done
    } else if attempt < 149 {
        RenameStep::WaitAndRetry
    } else {
        RenameStep::GiveUp
    }
}

/// Whether a file is a program that was moved aside.
pub fn is_aside(name: &str) -> (r: bool)
    ensures
        r == text::holds(name@, ASIDE_PREFIX@),
{
    contains(name, ASIDE_PREFIX)
}

// --- What the user is told ---

pub fn swap_failed(error: &str) -> (r: String)
    ensures
        r@ == "FFmpeg was downloaded but could not be put into place: "@ + error@
            + ". Close FlipperClipper and try again."@,
{
    let mut out = "FFmpeg was downloaded but could not be put into place: ".to_string();
    out.append(error);
    out.append(". Close FlipperClipper and try again.");
    out
}

/// A download's own words are already worded for a person; two of them read better named.
pub open spec fn download_complaint(detail: Seq<char>) -> Seq<char> {
    if text::begins(detail, "Could not reach the download"@) {
        NO_CONNECTION@
    } else if text::holds(detail, "os error 112"@) {
        NO_SPACE@
    } else {
        detail
    }
}

/// What the user is told of a download that failed. A full disk arrives as a number.
pub fn download_failed(detail: String) -> (r: String)
    ensures
        r@ == download_complaint(detail@),
{
    if starts(detail.as_str(), "Could not reach the download") {
        return NO_CONNECTION.to_string();
    }
    if contains(detail.as_str(), "os error 112") {
        return NO_SPACE.to_string();
    }
    detail
}

} // verus!
