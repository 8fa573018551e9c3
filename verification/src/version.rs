//! Semantic versions, as the `semver` crate reads and orders them.

use vstd::prelude::*;
use vstd::string::*;

use crate::number;
use crate::number::decimal_text;
use crate::text;

verus! {

/// What `semver::Version::parse` reads a text as: major, minor and patch numbers, pre-release and
/// build identifiers.
pub uninterp spec fn semver_fields(s: Seq<char>) -> Option<(u64, u64, u64, Seq<char>, Seq<char>)>;

/// How `semver::Version` orders the versions that two texts spell: negative where the first is
/// older, positive where it is newer, zero where they are the same.
pub uninterp spec fn semver_order(a: Seq<char>, b: Seq<char>) -> int;

/// The three numbers of one version come before those of another.
pub open spec fn core_before(
    a: (u64, u64, u64, Seq<char>, Seq<char>),
    b: (u64, u64, u64, Seq<char>, Seq<char>),
) -> bool {
    a.0 < b.0 || (a.0 == b.0 && (a.1 < b.1 || (a.1 == b.1 && a.2 < b.2)))
}

/// A text that spells a version.
pub open spec fn is_version(s: Seq<char>) -> bool {
    semver_fields(s) is Some
}

/// `semver::Version::parse`, by its fields. Its result is a function of the text alone and goes by
/// the name [`semver_fields`].
#[verifier::external_body]
fn parse_fields(s: &str) -> (r: Option<(u64, u64, u64, String, String)>)
    ensures
        r is Some <==> semver_fields(s@) is Some,
        r matches Some(f) ==> semver_fields(s@) == Some((f.0, f.1, f.2, f.3@, f.4@)),
{
    match semver::Version::parse(s) {
        Ok(v) => Some((
            v.major,
            v.minor,
            v.patch,
            v.pre.as_str().to_string(),
            v.build.as_str().to_string(),
        )),
        Err(_) => None,
    }
}

/// `semver::Version::cmp` on the versions that two texts spell; its result goes by the name
/// [`semver_order`]. It is a total order: turning the two round turns the sign, and what is no
/// newer than the older of two is no newer than the other. The three numbers decide first; with
/// those alike, a release is newer than a pre-release.
#[verifier::external_body]
fn order(a: &str, b: &str) -> (r: i8)
    requires
        is_version(a@),
        is_version(b@),
    ensures
        r == semver_order(a@, b@),
        semver_order(b@, a@) == -r,
        core_before(semver_fields(a@)->0, semver_fields(b@)->0) ==> r < 0,
        core_before(semver_fields(b@)->0, semver_fields(a@)->0) ==> r > 0,
        ({
            let fa = semver_fields(a@)->0;
            let fb = semver_fields(b@)->0;
            !core_before(fa, fb) && !core_before(fb, fa) && fa.3.len() == 0 && fb.3.len() > 0
        }) ==> r > 0,
        r >= 0 ==> (forall|c: Seq<char>|
            is_version(c) && semver_order(c, b@) <= 0 ==> #[trigger] semver_order(c, a@) <= 0),
        r <= 0 ==> (forall|c: Seq<char>|
            is_version(c) && semver_order(c, a@) <= 0 ==> #[trigger] semver_order(c, b@) <= 0),
{
    let first = semver::Version::parse(a).unwrap();
    match first.cmp(&semver::Version::parse(b).unwrap()) {
        std::cmp::Ordering::Less => -1,
        std::cmp::Ordering::Equal => 0,
        std::cmp::Ordering::Greater => 1,
    }
}

/// How a version is written out.
pub open spec fn version_text(f: (u64, u64, u64, Seq<char>, Seq<char>)) -> Seq<char> {
    number::decimal(f.0 as nat) + "."@ + number::decimal(f.1 as nat) + "."@ + number::decimal(
        f.2 as nat,
    ) + (if f.3.len() > 0 {
        "-"@ + f.3
    } else {
        Seq::empty()
    }) + (if f.4.len() > 0 {
        "+"@ + f.4
    } else {
        Seq::empty()
    })
}

/// A version, by the text that spells it.
#[derive(Debug)]
pub struct Version {
    text: String,
    major: u64,
    minor: u64,
    patch: u64,
    pre: String,
    build: String,
}

impl View for Version {
    type V = Seq<char>;

    closed spec fn view(&self) -> Seq<char> {
        self.text@
    }
}

impl Version {
    #[verifier::type_invariant]
    spec fn as_read(self) -> bool {
        semver_fields(self.text@) == Some(
            (self.major, self.minor, self.patch, self.pre@, self.build@),
        )
    }

    /// Reads a version.
    pub fn parse(s: &str) -> (r: Option<Version>)
        ensures
            r is Some <==> is_version(s@),
            r matches Some(v) ==> v@ == s@,
    {
        match parse_fields(s) {
            Some((major, minor, patch, pre, build)) => Some(
                Version { text: s.to_string(), major, minor, patch, pre, build },
            ),
            None => None,
        }
    }

    /// Whether the version names a pre-release.
    pub fn is_prerelease(&self) -> (r: bool)
        ensures
            is_version(self@),
            r == ((semver_fields(self@)->0).3.len() > 0),
    {
        proof {
            use_type_invariant(&*self);
        }
        self.pre.as_str().unicode_len() > 0
    }

    /// The version written out.
    pub fn written(&self) -> (r: String)
        ensures
            is_version(self@),
            r@ == version_text(semver_fields(self@)->0),
    {
        proof {
            use_type_invariant(&*self);
        }
        let mut out = decimal_text(self.major);
        out.append(".");
        out.append(decimal_text(self.minor).as_str());
        out.append(".");
        out.append(decimal_text(self.patch).as_str());
        if self.pre.as_str().unicode_len() > 0 {
            out.append("-");
            out.append(self.pre.as_str());
        }
        if self.build.as_str().unicode_len() > 0 {
            out.append("+");
            out.append(self.build.as_str());
        }
        proof {
            assert(out@ =~= version_text(semver_fields(self@)->0));
        }
        out
    }

    /// How two versions stand to each other: negative where this one is older, positive where it
    /// is newer.
    pub fn compare(&self, other: &Version) -> (r: i8)
        ensures
            is_version(self@),
            is_version(other@),
            r == semver_order(self@, other@),
            semver_order(other@, self@) == -r,
            core_before(semver_fields(self@)->0, semver_fields(other@)->0) ==> r < 0,
            core_before(semver_fields(other@)->0, semver_fields(self@)->0) ==> r > 0,
            ({
                let fa = semver_fields(self@)->0;
                let fb = semver_fields(other@)->0;
                !core_before(fa, fb) && !core_before(fb, fa) && fa.3.len() == 0 && fb.3.len() > 0
            }) ==> r > 0,
            r >= 0 ==> (forall|c: Seq<char>|
                is_version(c) && semver_order(c, other@) <= 0 ==> #[trigger] semver_order(c, self@)
                    <= 0),
            r <= 0 ==> (forall|c: Seq<char>|
                is_version(c) && semver_order(c, self@) <= 0 ==> #[trigger] semver_order(c, other@)
                    <= 0),
    {
        proof {
            use_type_invariant(&*self);
            use_type_invariant(&*other);
        }
        order(self.text.as_str(), other.text.as_str())
    }
}

} // verus!
