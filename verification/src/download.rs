//! A download, from the answer's first line to its last byte.

use vstd::prelude::*;
use vstd::string::*;

use crate::number;
use crate::number::{decimal_text, div_round, ONE};
use crate::text::joined_to;
use crate::version;
use crate::version::Version;

verus! {

/// How the application names itself: GitHub refuses a request that carries no name.
pub fn user_agent(v: &Version) -> (r: String)
    ensures
        r@ == "FlipperClipper/"@ + version::version_text(version::semver_fields(v@)->0)
            + " (+https://github.com/mkiera/FlipperClipper)"@,
{
    let mut out = joined_to("FlipperClipper/", v.written());
    out.append(" (+https://github.com/mkiera/FlipperClipper)");
    out
}

// --- What goes wrong ---

/// Where a download broke.
#[derive(Debug, Clone, Copy, PartialEq, Eq, Structural)]
pub enum DownloadFault {
    /// The client could not be made.
    Start,
    /// No answer came.
    Reach,
    /// The file could not be made or written to.
    Write,
    /// The stream broke off.
    Stream,
    /// The file could not be completed.
    Flush,
}

pub open spec fn fault_text(fault: DownloadFault, detail: Seq<char>) -> Seq<char> {
    match fault {
        DownloadFault::Start => "Could not start the download: "@ + detail,
        DownloadFault::Reach => "Could not reach the download: "@ + detail,
        DownloadFault::Write => "Could not write the download: "@ + detail,
        DownloadFault::Stream => "The download stopped early: "@ + detail,
        DownloadFault::Flush => "Could not finish writing the download: "@ + detail,
    }
}

/// What the user is told of a fault.
pub fn fault_message(fault: DownloadFault, detail: &str) -> (r: String)
    ensures
        r@ == fault_text(fault, detail@),
{
    let mut out = match fault {
        DownloadFault::Start => "Could not start the download: ".to_string(),
        DownloadFault::Reach => "Could not reach the download: ".to_string(),
        DownloadFault::Write => "Could not write the download: ".to_string(),
        DownloadFault::Stream => "The download stopped early: ".to_string(),
        DownloadFault::Flush => "Could not finish writing the download: ".to_string(),
    };
    out.append(detail);
    out
}

/// Whether an answer is refused: its status, how that is written out, and what to say where the
/// file is gone.
pub fn check_answer(code: u16, success: bool, status: &str, gone: Option<&str>) -> (r: Result<(), String>)
    ensures
        r is Ok <==> success,
        r matches Err(e) ==> e@ == (if code == 404 && gone is Some {
            gone->0@
        } else {
            "The download answered with HTTP "@ + status@ + "."@
        }),
{
    if success {
        return Ok(());
    }
    if code == 404 {
        if let Some(message) = gone {
            return Err(message.to_string());
        }
    }
    let mut out = "The download answered with HTTP ".to_string();
    out.append(status);
    out.append(".");
    Err(out)
}

// --- The bytes ---

/// A download under way.
#[derive(Debug, Clone, Copy, PartialEq, Eq, Structural)]
pub struct Download {
    /// How many bytes there should be, where anything says.
    pub expected: Option<u64>,
    /// How many have been written.
    pub written: u64,
    /// How many of the expected bytes there were when the bar was last moved.
    pub shown: u64,
}

/// How long the bar may stand still while bytes come in.
pub const BAR_REST_MILLIS: u64 = 100;

/// Whether the bar has stood still for long enough to be moved by any step.
pub fn is_late(still_for_millis: u64) -> (r: bool)
    ensures
        r == (still_for_millis >= BAR_REST_MILLIS),
{
    still_for_millis >= BAR_REST_MILLIS
}

/// At most all of it.
pub open spec fn upto(n: int, total: int) -> int {
    if n < total {
        n
    } else {
        total
    }
}

/// The share of a total, from 0 to 1.
pub open spec fn fraction(n: int, total: int) -> int {
    number::nearest(upto(n, total) * ONE, total)
}

/// A download after a chunk: the bar moves where it has a hundredth to go or has stood still for
/// a while, and only where the total is known.
pub open spec fn after_chunk(d: Download, len: int, late: bool) -> (Download, Option<int>) {
    let written = (d.written + len) as u64;
    match d.expected {
        Some(total) => if total > 0 && ((upto(written as int, total as int) - d.shown) * 100 >= total
            || late) {
            (
                Download { written, shown: upto(written as int, total as int) as u64, ..d },
                Some(fraction(written as int, total as int)),
            )
        } else {
            (Download { written, ..d }, None)
        },
        None => (Download { written, ..d }, None),
    }
}

impl Download {
    /// What the bar shows is no more than what there is to show.
    pub open spec fn sound(self) -> bool {
        match self.expected {
            Some(total) => self.shown <= upto(self.written as int, total as int),
            None => self.shown == 0,
        }
    }

    /// A download that has just begun. A release states its length; another source may only send
    /// one along.
    pub fn new(stated: Option<u64>, sent: Option<u64>) -> (r: Download)
        ensures
            r == (Download {
                expected: if stated is Some {
                    stated
                } else {
                    sent
                },
                written: 0,
                shown: 0,
            }),
            r.sound(),
    {
        let expected = match stated {
            Some(n) => Some(n),
            None => sent,
        };
        Download { expected, written: 0, shown: 0 }
    }

    /// Takes in a chunk that was written; answers where the bar moves to, in billionths. `late`
    /// says that it [`is_late`].
    pub fn chunk(&mut self, len: u64, late: bool) -> (r: Option<i64>)
        requires
            old(self).sound(),
            old(self).written + len <= u64::MAX,
        ensures
            *final(self) == after_chunk(*old(self), len as int, late).0,
            final(self).sound(),
            r is Some <==> after_chunk(*old(self), len as int, late).1 is Some,
            r matches Some(f) ==> f == after_chunk(*old(self), len as int, late).1->0 && 0 <= f <= ONE,
    {
        self.written = self.written + len;
        match self.expected {
            Some(total) => {
                if total == 0 {
                    return None;
                }
                let here: u64 = if self.written < total {
                    self.written
                } else {
                    total
                };
                let moved: u128 = (here - self.shown) as u128 * 100;
                if moved >= total as u128 || late {
                    self.shown = here;
                    let part: i128 = div_round(here as i128 * 1_000_000_000, total as i128);
                    proof {
                        let n = here * ONE;
                        number::lemma_nearest_parts(n, total as int);
                        vstd::arithmetic::div_mod::lemma_fundamental_div_mod(n, total as int);
                        let q = n / (total as int);
                        let rest = n % (total as int);
                        assert(q + (if 2 * rest >= total {
                            1int
                        } else {
                            0int
                        }) <= ONE) by (nonlinear_arith)
                            requires
                                n == total * q + rest,
                                0 <= rest < total,
                                n <= ONE * total,
                                total > 0,
                        ;
                    }
                    return Some(part as i64);
                }
                None
            },
            None => None,
        }
    }

    /// What comes of a download whose stream has ended: a stream that ends cannot be told from a
    /// connection that was cut, so anything but the promised length is refused. One that is as
    /// long as promised leaves the bar at its end.
    pub fn finish(&self) -> (r: Result<i64, String>)
        ensures
            r is Ok <==> (self.expected is None || self.expected == Some(self.written)),
            r matches Ok(end) ==> end == ONE,
            r matches Err(e) ==> e@ == short_text(self.written as int, self.expected->0 as int),
    {
        match self.expected {
            Some(total) => {
                if self.written == total {
                    return Ok(ONE);
                }
                let mut out = joined_to(
                    "The download stopped early — got ",
                    decimal_text(self.written),
                );
                out.append(" bytes of the ");
                out.append(decimal_text(total).as_str());
                out.append(
                    " it should have. The incomplete file has been deleted; please try again.",
                );
                Err(out)
            },
            None => Ok(ONE),
        }
    }
}

/// What the user is told of a download that is not as long as it should be.
pub open spec fn short_text(written: int, total: int) -> Seq<char> {
    "The download stopped early — got "@ + number::decimal(written as nat) + " bytes of the "@
        + number::decimal(total as nat)
        + " it should have. The incomplete file has been deleted; please try again."@
}

/// The bar never moves backwards.
pub proof fn law_bar_never_moves_back(d: Download, len: int, late: bool)
    requires
        d.sound(),
        0 <= len,
        d.written + len <= u64::MAX,
    ensures
        after_chunk(d, len, late).0.shown >= d.shown,
        after_chunk(d, len, late).0.written == d.written + len,
        after_chunk(d, len, late).0.sound(),
{
}

/// The bar shows the share that is written: where it moves, the share times the length gives what
/// is written back. It moves where a hundredth has come in since, or enough time has gone by.
pub proof fn law_bar_shows_what_is_written(d: Download, len: int, late: bool, total: u64)
    requires
        d.sound(),
        d.expected == Some(total),
        total > 0,
        0 <= len,
        d.written + len <= total,
    ensures
        ({
            let written = d.written + len;
            &&& after_chunk(d, len, late).1 matches Some(f) ==> -total <= 2 * (f * total - written * 1_000_000_000)
                <= total
            &&& after_chunk(d, len, late).1 is Some <==> late || 100 * (written - d.shown) >= total
            &&& after_chunk(d, len, late).1 is Some ==> after_chunk(d, len, late).0.shown == written
        }),
{
    number::lemma_near((d.written + len) * ONE, total as int);
}

} // verus!
