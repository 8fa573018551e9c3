//! Which build of the application is offered next: the published releases, and the branch builds
//! that somebody has to pick by hand.

use vstd::prelude::*;
use vstd::string::*;

use crate::number;
use crate::number::decimal_text;
use crate::settings::UpdateChannel;
use crate::text;
use crate::text::{chars_end, chars_of, copy, copy_maybe, front, joined_to, small_char, small_chars, text_of, CharSet};
use crate::version;
use crate::version::Version;

verus! {

// --- What GitHub says ---

#[derive(Debug, Clone)]
pub struct GhAsset {
    pub name: String,
    pub browser_download_url: String,
    pub size: u64,
}

#[derive(Debug, Clone)]
pub struct GhRelease {
    pub tag_name: String,
    pub html_url: String,
    pub draft: bool,
    pub prerelease: bool,
    pub published_at: Option<String>,
    pub assets: Vec<GhAsset>,
}

#[derive(Debug, Clone)]
pub struct GhRun {
    pub id: u64,
    pub name: Option<String>,
    pub head_branch: Option<String>,
    pub head_sha: String,
    pub run_number: u64,
    pub created_at: Option<String>,
}

#[derive(Debug, Clone)]
pub struct GhArtifact {
    pub name: String,
    pub expired: bool,
}

// --- What the user is offered ---

#[derive(Debug, Clone)]
pub struct UpdateInfo {
    pub version: String,
    pub release_url: String,
    pub download_url: String,
    pub asset_name: String,
    pub size_bytes: u64,
    pub prerelease: bool,
}

#[derive(Debug, Clone)]
pub struct ReleaseInfo {
    pub version: String,
    pub tag_name: String,
    pub published_at: Option<String>,
    pub prerelease: bool,
    pub release_url: String,
    pub download_url: String,
    pub asset_name: String,
    pub size_bytes: u64,
}

#[derive(Debug, Clone)]
pub struct AlphaBuild {
    pub run_id: u64,
    pub branch: String,
    pub sha: String,
    pub run_number: u64,
    pub created_at: Option<String>,
    pub artifact_name: String,
    pub download_url: String,
    pub is_current: bool,
}

// --- One release ---

/// The version a release's tag spells, the leading `v` left off.
pub open spec fn tag_version(r: GhRelease) -> Seq<char> {
    text::trim_front(r.tag_name@, CharSet::One('v'))
}

/// The first asset from `i` on that is the installer, or the number of assets.
pub open spec fn installer(assets: Seq<GhAsset>, i: int) -> int
    decreases assets.len() - i,
{
    if i >= assets.len() {
        assets.len() as int
    } else if is_installer(assets[i].name@) {
        i
    } else {
        installer(assets, i + 1)
    }
}

/// The name every installer is given.
pub open spec fn is_installer(name: Seq<char>) -> bool {
    text::ends(text::small_text(name), "-setup.exe"@)
}

/// A release is a pre-release by its flag or by its version.
pub open spec fn is_pre(r: GhRelease) -> bool {
    r.prerelease || (version::semver_fields(tag_version(r))->0).3.len() > 0
}

/// A release that can be offered on a channel: published, with a version that can be ordered, not
/// a pre-release on the stable channel, and with its installer uploaded.
pub open spec fn usable(r: GhRelease, channel: UpdateChannel) -> bool {
    &&& !r.draft
    &&& version::is_version(tag_version(r))
    &&& is_pre(r) ==> channel is Prerelease
    &&& installer(r.assets@, 0) < r.assets@.len()
}

/// How two releases stand to each other by their versions.
pub open spec fn order(a: GhRelease, b: GhRelease) -> int {
    version::semver_order(tag_version(a), tag_version(b))
}

pub fn installer_named(name: &str) -> (r: bool)
    ensures
        r == is_installer(name@),
{
    chars_end(&small_chars(&chars_of(name)), "-setup.exe")
}

fn find_installer(assets: &Vec<GhAsset>) -> (r: usize)
    ensures
        r == installer(assets@, 0),
        r <= assets.len(),
{
    let mut i: usize = 0;
    while i < assets.len()
        invariant
            i <= assets.len(),
            installer(assets@, 0) == installer(assets@, i as int),
        decreases assets.len() - i,
    {
        if installer_named(assets[i].name.as_str()) {
            return i;
        }
        i += 1;
    }
    i
}

/// The version of a release that can be offered, and where its installer is.
fn look_at(r: &GhRelease, channel: UpdateChannel) -> (v: Option<(Version, bool, usize)>)
    ensures
        v is Some <==> usable(*r, channel),
        v matches Some((version, pre, asset)) ==> {
            &&& version@ == tag_version(*r)
            &&& pre == is_pre(*r)
            &&& asset == installer(r.assets@, 0)
        },
{
    if r.draft {
        return None;
    }
    let tag = text_of(&front(chars_of(r.tag_name.as_str()), &CharSet::One('v')));
    match Version::parse(tag.as_str()) {
        Some(version) => {
            let pre = r.prerelease || version.is_prerelease();
            if pre && channel == UpdateChannel::Stable {
                return None;
            }
            let asset = find_installer(&r.assets);
            if asset == r.assets.len() {
                return None;
            }
            Some((version, pre, asset))
        },
        None => None,
    }
}

// --- The newest ---

/// A release to offer a build of version `current`: usable, and newer.
pub open spec fn offers(r: GhRelease, current: Seq<char>, channel: UpdateChannel) -> bool {
    usable(r, channel) && version::semver_order(tag_version(r), current) > 0
}

/// The newest of the first `k` releases that can be offered; of two alike, the first.
pub open spec fn newest(releases: Seq<GhRelease>, current: Seq<char>, channel: UpdateChannel, k: int) -> Option<
    int,
>
    decreases k,
{
    if k <= 0 {
        None
    } else {
        let before = newest(releases, current, channel, k - 1);
        if offers(releases[k - 1], current, channel) && (before is None || order(
            releases[k - 1],
            releases[before->0],
        ) > 0) {
            Some(k - 1)
        } else {
            before
        }
    }
}

/// What the user is told of an update.
pub open spec fn announces(info: UpdateInfo, r: GhRelease) -> bool {
    let asset = r.assets@[installer(r.assets@, 0)];
    &&& info.version@ == version::version_text(version::semver_fields(tag_version(r))->0)
    &&& info.release_url@ == r.html_url@
    &&& info.download_url@ == asset.browser_download_url@
    &&& info.asset_name@ == asset.name@
    &&& info.size_bytes == asset.size
    &&& info.prerelease == is_pre(r)
}

/// No release that can be offered is newer than release `best`.
pub open spec fn none_newer(
    releases: Seq<GhRelease>,
    current: Seq<char>,
    channel: UpdateChannel,
    k: int,
    best: int,
) -> bool {
    forall|j: int|
        0 <= j < k && j != best && offers(#[trigger] releases[j], current, channel) ==> order(
            releases[j],
            releases[best],
        ) <= 0
}

/// The update to offer a build of version `current`, if there is one: the newest release of the
/// channel that is newer than the build. A wrong answer here is quiet either way: a downgrade
/// walks somebody backwards, and nothing at all means a fix never reaches them.
pub fn pick_update(releases: Vec<GhRelease>, current: &Version, channel: UpdateChannel) -> (r: Option<
    UpdateInfo,
>)
    ensures
        ({
            let best = newest(releases@, current@, channel, releases.len() as int);
            &&& r is Some <==> best is Some
            &&& r matches Some(info) ==> {
                &&& 0 <= best->0 < releases.len()
                &&& offers(releases@[best->0], current@, channel)
                &&& announces(info, releases@[best->0])
                &&& none_newer(releases@, current@, channel, releases.len() as int, best->0)
            }
        }),
        r is None <==> forall|j: int|
            0 <= j < releases.len() ==> !offers(#[trigger] releases@[j], current@, channel),
{
    let mut best: Option<(Version, bool, usize, usize)> = None;
    let mut i: usize = 0;
    while i < releases.len()
        invariant
            i <= releases.len(),
            best is Some <==> newest(releases@, current@, channel, i as int) is Some,
            best matches Some((v, pre, at, asset)) ==> {
                &&& at < i
                &&& newest(releases@, current@, channel, i as int) == Some(at as int)
                &&& v@ == tag_version(releases@[at as int])
                &&& pre == is_pre(releases@[at as int])
                &&& asset == installer(releases@[at as int].assets@, 0)
                &&& offers(releases@[at as int], current@, channel)
                &&& none_newer(releases@, current@, channel, i as int, at as int)
            },
            best is None ==> forall|j: int|
                0 <= j < i ==> !offers(#[trigger] releases@[j], current@, channel),
        decreases releases.len() - i,
    {
        match look_at(&releases[i], channel) {
            Some((v, pre, asset)) => {
                if v.compare(current) > 0 {
                    let newer = match &best {
                        Some((seen, _, _, _)) => v.compare(seen) > 0,
                        None => true,
                    };
                    if newer {
                        best = Some((v, pre, i, asset));
                    }
                }
            },
            None => {},
        }
        i += 1;
    }
    match best {
        Some((v, pre, at, asset)) => {
            let release = &releases[at];
            let chosen = &release.assets[asset];
            Some(
                UpdateInfo {
                    version: v.written(),
                    release_url: copy(&release.html_url),
                    download_url: copy(&chosen.browser_download_url),
                    asset_name: copy(&chosen.name),
                    size_bytes: chosen.size,
                    prerelease: pre,
                },
            )
        },
        None => None,
    }
}

/// The stable channel is never offered a pre-release, no channel is offered a draft, and what is
/// offered is newer than the build it is offered to.
pub proof fn law_offers_are_newer_and_on_the_channel(
    r: GhRelease,
    current: Seq<char>,
    channel: UpdateChannel,
)
    requires
        offers(r, current, channel),
    ensures
        channel is Stable ==> !is_pre(r) && !r.prerelease,
        !r.draft,
        version::semver_order(tag_version(r), current) > 0,
        installer(r.assets@, 0) < r.assets@.len(),
        channel is Stable ==> offers(r, current, UpdateChannel::Prerelease),
{
}

// --- The listing ---

/// Release `x` put into a list that stands newest first: behind everything that is not older.
pub open spec fn inserted(releases: Seq<GhRelease>, list: Seq<int>, x: int) -> Seq<int>
    decreases list.len(),
{
    if list.len() == 0 {
        seq![x]
    } else if order(releases[list.last()], releases[x]) < 0 {
        inserted(releases, list.drop_last(), x).push(list.last())
    } else {
        list.push(x)
    }
}

/// The usable ones of the first `k` releases, newest first; of two alike, the earlier first.
pub open spec fn listing(releases: Seq<GhRelease>, channel: UpdateChannel, k: int) -> Seq<int>
    decreases k,
{
    if k <= 0 {
        Seq::empty()
    } else {
        let before = listing(releases, channel, k - 1);
        if usable(releases[k - 1], channel) {
            inserted(releases, before, k - 1)
        } else {
            before
        }
    }
}

/// What the user is shown of a listed release.
pub open spec fn lists(info: ReleaseInfo, r: GhRelease) -> bool {
    let asset = r.assets@[installer(r.assets@, 0)];
    &&& info.version@ == version::version_text(version::semver_fields(tag_version(r))->0)
    &&& info.tag_name@ == r.tag_name@
    &&& text::maybe_text(info.published_at) == text::maybe_text(r.published_at)
    &&& info.prerelease == is_pre(r)
    &&& info.release_url@ == r.html_url@
    &&& info.download_url@ == asset.browser_download_url@
    &&& info.asset_name@ == asset.name@
    &&& info.size_bytes == asset.size
}

/// A list of releases that stands newest first.
pub open spec fn newest_first(releases: Seq<GhRelease>, list: Seq<int>) -> bool {
    forall|i: int, j: int|
        0 <= i < j < list.len() ==> order(
            releases[#[trigger] list[j]],
            releases[#[trigger] list[i]],
        ) <= 0
}

fn release_info(r: &GhRelease, version: &Version, pre: bool, asset: usize) -> (info: ReleaseInfo)
    requires
        version@ == tag_version(*r),
        pre == is_pre(*r),
        asset == installer(r.assets@, 0),
        asset < r.assets.len(),
    ensures
        lists(info, *r),
{
    let chosen = &r.assets[asset];
    ReleaseInfo {
        version: version.written(),
        tag_name: copy(&r.tag_name),
        published_at: copy_maybe(&r.published_at),
        prerelease: pre,
        release_url: copy(&r.html_url),
        download_url: copy(&chosen.browser_download_url),
        asset_name: copy(&chosen.name),
        size_bytes: chosen.size,
    }
}

proof fn lemma_inserted_at(releases: Seq<GhRelease>, list: Seq<int>, x: int, p: int)
    requires
        0 <= p <= list.len(),
        forall|i: int| p <= i < list.len() ==> order(releases[#[trigger] list[i]], releases[x]) < 0,
        p > 0 ==> order(releases[list[p - 1]], releases[x]) >= 0,
    ensures
        inserted(releases, list, x) == list.insert(p, x),
    decreases list.len(),
{
    if list.len() == 0 {
        assert(list.insert(p, x) =~= seq![x]);
    } else if p < list.len() {
        assert(order(releases[list.last()], releases[x]) < 0);
        let shorter = list.drop_last();
        assert forall|i: int| p <= i < shorter.len() implies order(
            releases[#[trigger] shorter[i]],
            releases[x],
        ) < 0 by {
            assert(shorter[i] == list[i]);
        }
        if p > 0 {
            assert(shorter[p - 1] == list[p - 1]);
        }
        lemma_inserted_at(releases, shorter, x, p);
        assert(list.insert(p, x) =~= shorter.insert(p, x).push(list.last()));
    } else {
        assert(list.insert(p, x) =~= list.push(x));
    }
}

/// Whatever is no newer than the version `b` is no newer than the version `a` either.
pub open spec fn above(a: Seq<char>, b: Seq<char>) -> bool {
    forall|c: Seq<char>|
        version::is_version(c) && version::semver_order(c, b) <= 0
            ==> #[trigger] version::semver_order(c, a) <= 0
}

/// A list of releases each of which stands above those behind it.
spec fn ranked(releases: Seq<GhRelease>, list: Seq<int>) -> bool {
    forall|i: int, j: int|
        0 <= i < j < list.len() ==> order(
            releases[#[trigger] list[j]],
            releases[#[trigger] list[i]],
        ) <= 0 && above(tag_version(releases[list[i]]), tag_version(releases[list[j]]))
}

/// Where release `x`, of version `v`, belongs in a list that stands newest first.
fn place_for(
    versions: &Vec<Version>,
    v: &Version,
    Ghost(all): Ghost<Seq<GhRelease>>,
    Ghost(list): Ghost<Seq<int>>,
    Ghost(x): Ghost<int>,
) -> (p: usize)
    requires
        versions.len() == list.len(),
        v@ == tag_version(all[x]),
        forall|i: int|
            0 <= i < list.len() ==> versions@[i]@ == tag_version(all[#[trigger] list[i]]),
        ranked(all, list),
    ensures
        p <= list.len(),
        forall|i: int| p <= i < list.len() ==> order(all[#[trigger] list[i]], all[x]) < 0,
        p > 0 ==> order(all[list[p - 1]], all[x]) >= 0,
        ranked(all, list.insert(p as int, x)),
{
    let mut p: usize = versions.len();
    while p > 0
        invariant_except_break
            forall|i: int|
                p <= i < list.len() ==> order(all[#[trigger] list[i]], all[x]) < 0 && above(
                    v@,
                    tag_version(all[list[i]]),
                ),
        invariant
            p <= versions.len(),
            versions.len() == list.len(),
            v@ == tag_version(all[x]),
            forall|i: int|
                0 <= i < list.len() ==> versions@[i]@ == tag_version(all[#[trigger] list[i]]),
        ensures
            p <= versions.len(),
            forall|i: int|
                p <= i < list.len() ==> order(all[#[trigger] list[i]], all[x]) < 0 && above(
                    v@,
                    tag_version(all[list[i]]),
                ),
            p > 0 ==> version::is_version(v@) && order(all[list[p - 1]], all[x]) >= 0 && order(
                all[x],
                all[list[p - 1]],
            ) <= 0 && above(tag_version(all[list[p - 1]]), v@),
        decreases p,
    {
        let c = versions[p - 1].compare(v);
        proof {
            assert(versions@[p - 1]@ == tag_version(all[list[p - 1]]));
        }
        if c >= 0 {
            break;
        }
        p -= 1;
    }
    proof {
        let next = list.insert(p as int, x);
        assert forall|i: int, j: int| 0 <= i < j < next.len() implies order(
            all[#[trigger] next[j]],
            all[#[trigger] next[i]],
        ) <= 0 && above(tag_version(all[next[i]]), tag_version(all[next[j]])) by {
            let io = if i < p {
                i
            } else {
                i - 1
            };
            let jo = if j < p {
                j
            } else {
                j - 1
            };
            if i == p {
                assert(next[i] == x && next[j] == list[jo]);
            } else if j == p {
                assert(next[j] == x && next[i] == list[io]);
                if i < p - 1 {
                    assert(order(all[list[p - 1]], all[list[io]]) <= 0);
                    assert(above(tag_version(all[list[io]]), tag_version(all[list[p - 1]])));
                }
            } else {
                assert(next[i] == list[io] && next[j] == list[jo]);
            }
        }
    }
    p
}

/// Every release of a channel that can be used, newest first, older ones than the running build
/// among them: the listing is what makes going back possible.
pub fn releases_for_channel(releases: Vec<GhRelease>, channel: UpdateChannel) -> (r: Vec<ReleaseInfo>)
    ensures
        ({
            let list = listing(releases@, channel, releases.len() as int);
            &&& r.len() == list.len()
            &&& newest_first(releases@, list)
            &&& forall|i: int|
                0 <= i < r.len() ==> 0 <= list[i] < releases.len() && lists(
                    #[trigger] r@[i],
                    releases@[list[i]],
                )
        }),
{
    let mut infos: Vec<ReleaseInfo> = Vec::new();
    let mut versions: Vec<Version> = Vec::new();
    let ghost mut list: Seq<int> = Seq::empty();
    let mut k: usize = 0;
    while k < releases.len()
        invariant
            k <= releases.len(),
            list == listing(releases@, channel, k as int),
            infos.len() == list.len(),
            versions.len() == list.len(),
            ranked(releases@, list),
            forall|i: int|
                0 <= i < list.len() ==> 0 <= #[trigger] list[i] < k && lists(
                    infos@[i],
                    releases@[list[i]],
                ) && versions@[i]@ == tag_version(releases@[list[i]]) && version::is_version(
                    versions@[i]@,
                ),
        decreases releases.len() - k,
    {
        match look_at(&releases[k], channel) {
            Some((v, pre, asset)) => {
                let info = release_info(&releases[k], &v, pre, asset);
                let p = place_for(&versions, &v, Ghost(releases@), Ghost(list), Ghost(k as int));
                let ghost older = list;
                proof {
                    lemma_inserted_at(releases@, older, k as int, p as int);
                    list = older.insert(p as int, k as int);
                }
                infos.insert(p, info);
                versions.insert(p, v);
            },
            None => {},
        }
        k += 1;
    }
    infos
}

proof fn lemma_inserted_members(releases: Seq<GhRelease>, list: Seq<int>, x: int)
    requires
        list.no_duplicates(),
        !list.contains(x),
    ensures
        inserted(releases, list, x).no_duplicates(),
        forall|y: int| #[trigger] inserted(releases, list, x).contains(y) <==> (list.contains(y) || y == x),
    decreases list.len(),
{
    let r = inserted(releases, list, x);
    if list.len() == 0 {
        assert(r[0] == x);
    } else if order(releases[list.last()], releases[x]) < 0 {
        let shorter = list.drop_last();
        assert forall|y: int| shorter.contains(y) implies list.contains(y) by {
            let i = choose|i: int| 0 <= i < shorter.len() && shorter[i] == y;
            assert(list[i] == y);
        }
        lemma_inserted_members(releases, shorter, x);
        let inner = inserted(releases, shorter, x);
        assert(r == inner.push(list.last()));
        assert(list[list.len() - 1] == list.last());
        assert(!shorter.contains(list.last())) by {
            if shorter.contains(list.last()) {
                let i = choose|i: int| 0 <= i < shorter.len() && shorter[i] == list.last();
                assert(list[i] == list[list.len() - 1]);
            }
        }
        assert(!inner.contains(list.last()));
        assert forall|y: int| r.contains(y) <==> (list.contains(y) || y == x) by {
            if r.contains(y) {
                let i = choose|i: int| 0 <= i < r.len() && r[i] == y;
                if i < inner.len() {
                    assert(inner[i] == y);
                    assert(inner.contains(y));
                }
            }
            if list.contains(y) {
                let i = choose|i: int| 0 <= i < list.len() && list[i] == y;
                if i < list.len() - 1 {
                    assert(shorter[i] == y);
                    assert(shorter.contains(y));
                    assert(inner.contains(y));
                    let q = choose|q: int| 0 <= q < inner.len() && inner[q] == y;
                    assert(r[q] == y);
                } else {
                    assert(r[r.len() - 1] == y);
                }
            }
            if y == x {
                assert(inner.contains(x));
                let q = choose|q: int| 0 <= q < inner.len() && inner[q] == x;
                assert(r[q] == x);
            }
        }
        assert forall|i: int, j: int| 0 <= i < r.len() && 0 <= j < r.len() && i != j implies r[i]
            != r[j] by {
            if i < inner.len() && j < inner.len() {
                assert(inner[i] != inner[j]);
            } else if i < inner.len() {
                assert(inner.contains(inner[i]));
            } else {
                assert(inner.contains(inner[j]));
            }
        }
    } else {
        assert(r == list.push(x));
        assert forall|y: int| r.contains(y) <==> (list.contains(y) || y == x) by {
            if list.contains(y) {
                let i = choose|i: int| 0 <= i < list.len() && list[i] == y;
                assert(r[i] == y);
            }
            assert(r[r.len() - 1] == x);
        }
        assert forall|i: int, j: int| 0 <= i < r.len() && 0 <= j < r.len() && i != j implies r[i]
            != r[j] by {
            if i < list.len() && j < list.len() {
                assert(list[i] != list[j]);
            } else if i < list.len() {
                assert(list.contains(list[i]));
            } else {
                assert(list.contains(list[j]));
            }
        }
    }
}

/// A listing holds every usable release once, and nothing else.
pub proof fn law_listing_is_complete(releases: Seq<GhRelease>, channel: UpdateChannel, k: int)
    requires
        0 <= k <= releases.len(),
    ensures
        listing(releases, channel, k).no_duplicates(),
        forall|j: int| #[trigger]
            listing(releases, channel, k).contains(j) <==> (0 <= j < k && usable(releases[j], channel)),
    decreases k,
{
    if k > 0 {
        law_listing_is_complete(releases, channel, k - 1);
        if usable(releases[k - 1], channel) {
            let before = listing(releases, channel, k - 1);
            lemma_inserted_members(releases, before, k - 1);
            assert forall|j: int|
                listing(releases, channel, k).contains(j) <==> (0 <= j < k && usable(
                    releases[j],
                    channel,
                )) by {
                assert(inserted(releases, before, k - 1).contains(j) <==> (before.contains(j) || j == k
                    - 1));
            }
        }
    }
}

// --- Branch builds ---

/// A run that builds an installer from a branch.
pub open spec fn builds_branch(run: GhRun) -> bool {
    &&& run.name is Some
    &&& run.name->0@ == "Build Test"@
    &&& run.head_branch is Some
    &&& run.head_branch->0@.len() > 0
}

/// The branch of a run.
pub open spec fn branch_of(run: GhRun) -> Seq<char> {
    match run.head_branch {
        Some(b) => b@,
        None => Seq::empty(),
    }
}

/// The place from `i` on of a branch among the runs that are kept, or the number of them.
pub open spec fn place_of(runs: Seq<GhRun>, kept: Seq<int>, branch: Seq<char>, i: int) -> int
    decreases kept.len() - i,
{
    if i >= kept.len() {
        kept.len() as int
    } else if branch_of(runs[kept[i]]) == branch {
        i
    } else {
        place_of(runs, kept, branch, i + 1)
    }
}

/// The newest run of each branch among the first `k`, in the order the branches come up.
pub open spec fn per_branch(runs: Seq<GhRun>, k: int) -> Seq<int>
    decreases k,
{
    if k <= 0 {
        Seq::empty()
    } else {
        let before = per_branch(runs, k - 1);
        let run = runs[k - 1];
        let at = place_of(runs, before, branch_of(run), 0);
        if !builds_branch(run) {
            before
        } else if at >= before.len() {
            before.push(k - 1)
        } else if runs[before[at]].run_number < run.run_number {
            before.update(at, k - 1)
        } else {
            before
        }
    }
}

/// Run `x` put into a list that stands newest first.
pub open spec fn run_inserted(runs: Seq<GhRun>, list: Seq<int>, x: int) -> Seq<int>
    decreases list.len(),
{
    if list.len() == 0 {
        seq![x]
    } else if runs[list.last()].run_number < runs[x].run_number {
        run_inserted(runs, list.drop_last(), x).push(list.last())
    } else {
        list.push(x)
    }
}

/// The first `k` of a list of runs, newest first.
pub open spec fn run_order(runs: Seq<GhRun>, list: Seq<int>, k: int) -> Seq<int>
    decreases k,
{
    if k <= 0 {
        Seq::empty()
    } else {
        run_inserted(runs, run_order(runs, list, k - 1), list[k - 1])
    }
}

/// The newest run of each branch, newest first.
pub open spec fn branch_runs(runs: Seq<GhRun>) -> Seq<int> {
    let kept = per_branch(runs, runs.len() as int);
    run_order(runs, kept, kept.len() as int)
}

/// Two runs that say the same.
pub open spec fn same_run(a: GhRun, b: GhRun) -> bool {
    &&& a.id == b.id
    &&& text::maybe_text(a.name) == text::maybe_text(b.name)
    &&& text::maybe_text(a.head_branch) == text::maybe_text(b.head_branch)
    &&& a.head_sha@ == b.head_sha@
    &&& a.run_number == b.run_number
    &&& text::maybe_text(a.created_at) == text::maybe_text(b.created_at)
}

/// A run that says the same as one of the runs.
pub open spec fn taken_from(run: GhRun, runs: Seq<GhRun>, at: int) -> bool {
    0 <= at < runs.len() && same_run(run, runs[at])
}

fn copy_run(run: &GhRun) -> (r: GhRun)
    ensures
        same_run(r, *run),
{
    GhRun {
        id: run.id,
        name: copy_maybe(&run.name),
        head_branch: copy_maybe(&run.head_branch),
        head_sha: copy(&run.head_sha),
        run_number: run.run_number,
        created_at: copy_maybe(&run.created_at),
    }
}

fn is_branch_build(run: &GhRun) -> (r: bool)
    ensures
        r == builds_branch(*run),
{
    match (&run.name, &run.head_branch) {
        (Some(name), Some(branch)) => *name.as_str() == *"Build Test"
            && branch.as_str().unicode_len() > 0,
        _ => false,
    }
}

/// What a list of places names.
pub open spec fn places(v: Seq<usize>) -> Seq<int> {
    v.map_values(|i: usize| i as int)
}

fn find_branch(runs: &Vec<GhRun>, kept: &Vec<usize>, run: &GhRun) -> (r: usize)
    requires
        forall|i: int| 0 <= i < kept.len() ==> #[trigger] kept@[i] < runs.len() && builds_branch(
            runs@[kept@[i] as int],
        ),
        builds_branch(*run),
    ensures
        r == place_of(runs@, places(kept@), branch_of(*run), 0),
        r <= kept.len(),
{
    let mut i: usize = 0;
    let ghost list = places(kept@);
    while i < kept.len()
        invariant
            i <= kept.len(),
            list == places(kept@),
            builds_branch(*run),
            forall|i: int| 0 <= i < kept.len() ==> #[trigger] kept@[i] < runs.len() && builds_branch(
                runs@[kept@[i] as int],
            ),
            place_of(runs@, list, branch_of(*run), 0) == place_of(
                runs@,
                list,
                branch_of(*run),
                i as int,
            ),
        decreases kept.len() - i,
    {
        let other = &runs[kept[i]];
        proof {
            assert(list[i as int] == kept@[i as int]);
        }
        if let (Some(a), Some(b)) = (&other.head_branch, &run.head_branch) {
            if *a.as_str() == *b.as_str() {
                return i;
            }
        }
        i += 1;
    }
    i
}

fn keep_newest(runs: &Vec<GhRun>) -> (r: Vec<usize>)
    ensures
        places(r@) == per_branch(runs@, runs.len() as int),
        forall|i: int| 0 <= i < r.len() ==> #[trigger] r@[i] < runs.len(),
{
    let mut kept: Vec<usize> = Vec::new();
    let mut k: usize = 0;
    proof {
        assert(places(kept@) =~= per_branch(runs@, 0));
    }
    while k < runs.len()
        invariant
            k <= runs.len(),
            places(kept@) == per_branch(runs@, k as int),
            forall|i: int| 0 <= i < kept.len() ==> #[trigger] kept@[i] < k && builds_branch(
                runs@[kept@[i] as int],
            ),
        decreases runs.len() - k,
    {
        let ghost before = kept@;
        if is_branch_build(&runs[k]) {
            let at = find_branch(runs, &kept, &runs[k]);
            if at == kept.len() {
                kept.push(k);
                proof {
                    assert(places(kept@) =~= places(before).push(k as int));
                }
            } else if runs[kept[at]].run_number < runs[k].run_number {
                kept.set(at, k);
                proof {
                    assert(places(kept@) =~= places(before).update(at as int, k as int));
                }
            }
        }
        k += 1;
    }
    kept
}

proof fn lemma_run_inserted_at(runs: Seq<GhRun>, list: Seq<int>, x: int, p: int)
    requires
        0 <= p <= list.len(),
        forall|i: int|
            p <= i < list.len() ==> runs[#[trigger] list[i]].run_number < runs[x].run_number,
        p > 0 ==> runs[list[p - 1]].run_number >= runs[x].run_number,
    ensures
        run_inserted(runs, list, x) == list.insert(p, x),
    decreases list.len(),
{
    if list.len() == 0 {
        assert(list.insert(p, x) =~= seq![x]);
    } else if p < list.len() {
        assert(runs[list[list.len() - 1]].run_number < runs[x].run_number);
        let shorter = list.drop_last();
        assert forall|i: int| p <= i < shorter.len() implies runs[#[trigger] shorter[i]].run_number
            < runs[x].run_number by {
            assert(shorter[i] == list[i]);
        }
        if p > 0 {
            assert(shorter[p - 1] == list[p - 1]);
        }
        lemma_run_inserted_at(runs, shorter, x, p);
        assert(list.insert(p, x) =~= shorter.insert(p, x).push(list.last()));
    } else {
        assert(list.insert(p, x) =~= list.push(x));
    }
}

fn sort_runs(runs: &Vec<GhRun>, kept: &Vec<usize>) -> (r: Vec<usize>)
    requires
        forall|i: int| 0 <= i < kept.len() ==> #[trigger] kept@[i] < runs.len(),
    ensures
        places(r@) == run_order(runs@, places(kept@), kept.len() as int),
        forall|i: int| 0 <= i < r.len() ==> #[trigger] r@[i] < runs.len(),
{
    let mut sorted: Vec<usize> = Vec::new();
    let mut k: usize = 0;
    proof {
        assert(places(sorted@) =~= run_order(runs@, places(kept@), 0));
    }
    while k < kept.len()
        invariant
            k <= kept.len(),
            places(sorted@) == run_order(runs@, places(kept@), k as int),
            forall|i: int| 0 <= i < kept.len() ==> #[trigger] kept@[i] < runs.len(),
            forall|i: int| 0 <= i < sorted.len() ==> #[trigger] sorted@[i] < runs.len(),
        decreases kept.len() - k,
    {
        let x = kept[k];
        let mut p: usize = sorted.len();
        while p > 0 && runs[sorted[p - 1]].run_number < runs[x].run_number
            invariant
                p <= sorted.len(),
                x < runs.len(),
                forall|i: int| 0 <= i < sorted.len() ==> #[trigger] sorted@[i] < runs.len(),
                forall|i: int|
                    p <= i < sorted.len() ==> runs@[#[trigger] sorted@[i] as int].run_number
                        < runs@[x as int].run_number,
            decreases p,
        {
            p -= 1;
        }
        let ghost list = places(sorted@);
        proof {
            assert forall|i: int| p <= i < list.len() implies runs@[#[trigger] list[i]].run_number
                < runs@[x as int].run_number by {
                assert(list[i] == sorted@[i]);
            }
            if p > 0 {
                assert(list[p - 1] == sorted@[p - 1]);
            }
            lemma_run_inserted_at(runs@, list, x as int, p as int);
            assert(places(kept@)[k as int] == x);
        }
        sorted.insert(p, x);
        proof {
            assert(places(sorted@) =~= list.insert(p as int, x as int));
        }
        k += 1;
    }
    sorted
}

/// The newest run of each branch, newest first. Only one workflow builds an installer from a
/// branch, and a run without a branch is left out rather than listed blank.
pub fn newest_run_per_branch(runs: Vec<GhRun>) -> (r: Vec<GhRun>)
    ensures
        r.len() == branch_runs(runs@).len(),
        forall|i: int|
            0 <= i < r.len() ==> taken_from(#[trigger] r@[i], runs@, branch_runs(runs@)[i]),
{
    let kept = keep_newest(&runs);
    let sorted = sort_runs(&runs, &kept);
    let ghost list = branch_runs(runs@);
    proof {
        assert(places(kept@).len() == kept.len());
        assert(places(sorted@) == list);
        assert(list.len() == sorted.len());
    }
    let mut out: Vec<GhRun> = Vec::new();
    let mut i: usize = 0;
    while i < sorted.len()
        invariant
            i <= sorted.len(),
            out.len() == i,
            list == places(sorted@),
            forall|j: int| 0 <= j < sorted.len() ==> #[trigger] sorted@[j] < runs.len(),
            forall|j: int|
                0 <= j < i ==> taken_from(#[trigger] out@[j], runs@, list[j]),
        decreases sorted.len() - i,
    {
        proof {
            assert(list[i as int] == sorted@[i as int]);
        }
        out.push(copy_run(&runs[sorted[i]]));
        i += 1;
    }
    out
}

/// No two runs of a list are of one branch, and each is of a branch.
pub open spec fn one_per_branch(runs: Seq<GhRun>, list: Seq<int>) -> bool {
    &&& forall|i: int, j: int|
        0 <= i < j < list.len() ==> branch_of(runs[#[trigger] list[i]]) != branch_of(
            runs[#[trigger] list[j]],
        )
    &&& forall|i: int| 0 <= i < list.len() ==> builds_branch(runs[#[trigger] list[i]])
}

/// A list of runs that stands newest first.
pub open spec fn runs_newest_first(runs: Seq<GhRun>, list: Seq<int>) -> bool {
    forall|i: int, j: int|
        0 <= i < j < list.len() ==> runs[#[trigger] list[j]].run_number <= runs[#[trigger] list[i]].run_number
}

/// A run of a list that is of the same branch as `run` and no older.
pub open spec fn covers(runs: Seq<GhRun>, list: Seq<int>, run: GhRun) -> bool {
    exists|i: int|
        0 <= i < list.len() && branch_of(runs[#[trigger] list[i]]) == branch_of(run)
            && runs[list[i]].run_number >= run.run_number
}

proof fn lemma_place_of(runs: Seq<GhRun>, kept: Seq<int>, branch: Seq<char>, i: int)
    requires
        0 <= i <= kept.len(),
    ensures
        i <= place_of(runs, kept, branch, i) <= kept.len(),
        place_of(runs, kept, branch, i) < kept.len() ==> branch_of(
            runs[kept[place_of(runs, kept, branch, i)]],
        ) == branch,
        forall|j: int|
            i <= j < place_of(runs, kept, branch, i) ==> branch_of(runs[#[trigger] kept[j]]) != branch,
    decreases kept.len() - i,
{
    if i < kept.len() && branch_of(runs[kept[i]]) != branch {
        lemma_place_of(runs, kept, branch, i + 1);
    }
}

proof fn lemma_per_branch(runs: Seq<GhRun>, k: int)
    requires
        0 <= k <= runs.len(),
    ensures
        one_per_branch(runs, per_branch(runs, k)),
        forall|j: int|
            0 <= j < k && builds_branch(#[trigger] runs[j]) ==> covers(runs, per_branch(runs, k), runs[j]),
    decreases k,
{
    if k > 0 {
        lemma_per_branch(runs, k - 1);
        let before = per_branch(runs, k - 1);
        let after = per_branch(runs, k);
        let run = runs[k - 1];
        let at = place_of(runs, before, branch_of(run), 0);
        lemma_place_of(runs, before, branch_of(run), 0);
        if builds_branch(run) {
            assert forall|j: int| 0 <= j < k && builds_branch(#[trigger] runs[j]) implies covers(
                runs,
                after,
                runs[j],
            ) by {
                if j < k - 1 {
                    assert(covers(runs, before, runs[j]));
                    let i = choose|i: int|
                        0 <= i < before.len() && branch_of(runs[#[trigger] before[i]]) == branch_of(
                            runs[j],
                        ) && runs[before[i]].run_number >= runs[j].run_number;
                    assert(branch_of(runs[after[i]]) == branch_of(runs[j]));
                    assert(runs[after[i]].run_number >= runs[j].run_number);
                } else if at >= before.len() {
                    assert(after[before.len() as int] == k - 1);
                } else {
                    assert(branch_of(runs[after[at]]) == branch_of(run));
                }
            }
        }
    }
}

proof fn lemma_run_inserted(runs: Seq<GhRun>, list: Seq<int>, x: int)
    requires
        one_per_branch(runs, list),
        builds_branch(runs[x]),
        forall|i: int|
            0 <= i < list.len() ==> branch_of(runs[#[trigger] list[i]]) != branch_of(runs[x]),
        runs_newest_first(runs, list),
    ensures
        one_per_branch(runs, run_inserted(runs, list, x)),
        runs_newest_first(runs, run_inserted(runs, list, x)),
        run_inserted(runs, list, x).len() == list.len() + 1,
        forall|i: int|
            0 <= i < list.len() + 1 ==> (#[trigger] run_inserted(runs, list, x)[i] == x || list.contains(
                run_inserted(runs, list, x)[i],
            )),
        forall|y: int|
            list.contains(y) || y == x ==> #[trigger] run_inserted(runs, list, x).contains(y),
    decreases list.len(),
{
    let r = run_inserted(runs, list, x);
    if list.len() == 0 {
        assert(r[0] == x);
    } else if runs[list.last()].run_number < runs[x].run_number {
        let shorter = list.drop_last();
        assert forall|i: int, j: int| 0 <= i < j < shorter.len() implies branch_of(
            runs[#[trigger] shorter[i]],
        ) != branch_of(runs[#[trigger] shorter[j]]) && runs[shorter[j]].run_number
            <= runs[shorter[i]].run_number by {
            assert(shorter[i] == list[i] && shorter[j] == list[j]);
        }
        assert forall|i: int| 0 <= i < shorter.len() implies builds_branch(runs[#[trigger] shorter[i]])
            && branch_of(runs[shorter[i]]) != branch_of(runs[x]) by {
            assert(shorter[i] == list[i]);
        }
        lemma_run_inserted(runs, shorter, x);
        let inner = run_inserted(runs, shorter, x);
        let last = list.last();
        assert(list[list.len() - 1] == last);
        assert(r == inner.push(last));
        assert forall|i: int| 0 <= i < inner.len() implies branch_of(runs[#[trigger] inner[i]])
            != branch_of(runs[last]) && runs[last].run_number <= runs[inner[i]].run_number && builds_branch(
            runs[inner[i]],
        ) && (inner[i] == x || list.contains(inner[i])) by {
            if inner[i] != x {
                assert(shorter.contains(inner[i]));
                let q = choose|q: int| 0 <= q < shorter.len() && shorter[q] == inner[i];
                assert(list[q] == inner[i]);
                assert(branch_of(runs[list[q]]) != branch_of(runs[list[list.len() - 1]]));
            }
        }
        assert forall|y: int| list.contains(y) || y == x implies #[trigger] r.contains(y) by {
            if y == last {
                assert(r[r.len() - 1] == y);
            } else {
                if y != x {
                    let q = choose|q: int| 0 <= q < list.len() && list[q] == y;
                    assert(shorter[q] == y);
                    assert(shorter.contains(y));
                }
                assert(inner.contains(y));
                let q = choose|q: int| 0 <= q < inner.len() && inner[q] == y;
                assert(r[q] == y);
            }
        }
        assert(r[r.len() - 1] == last);
        assert(list.contains(last));
        assert forall|i: int| 0 <= i < r.len() implies (#[trigger] r[i] == x || list.contains(r[i])) by {
            if i < inner.len() {
                assert(r[i] == inner[i]);
            }
        }
        assert forall|i: int, j: int| 0 <= i < j < r.len() implies branch_of(runs[#[trigger] r[i]])
            != branch_of(runs[#[trigger] r[j]]) && runs[r[j]].run_number <= runs[r[i]].run_number by {
            assert(r[i] == inner[i]);
            if j < inner.len() {
                assert(r[j] == inner[j]);
            }
        }
        assert forall|i: int| 0 <= i < r.len() implies builds_branch(runs[#[trigger] r[i]]) by {
            if i < inner.len() {
                assert(r[i] == inner[i]);
            }
        }
    } else {
        assert(r == list.push(x));
        assert forall|i: int| 0 <= i < list.len() implies #[trigger] list.contains(list[i]) by {}
        assert forall|i: int| 0 <= i < r.len() implies (#[trigger] r[i] == x || list.contains(r[i])) by {
            if i < list.len() {
                assert(list.contains(list[i]));
            }
        }
        assert forall|y: int| list.contains(y) || y == x implies #[trigger] r.contains(y) by {
            if y == x {
                assert(r[r.len() - 1] == x);
            } else {
                let q = choose|q: int| 0 <= q < list.len() && list[q] == y;
                assert(r[q] == y);
            }
        }
        assert forall|i: int, j: int| 0 <= i < j < r.len() implies branch_of(runs[#[trigger] r[i]])
            != branch_of(runs[#[trigger] r[j]]) && runs[r[j]].run_number <= runs[r[i]].run_number by {
            assert(r[i] == list[i]);
            if j < list.len() {
                assert(r[j] == list[j]);
            } else if i < list.len() - 1 {
                assert(runs[list[list.len() - 1]].run_number <= runs[list[i]].run_number);
            }
        }
    }
}

proof fn lemma_run_order(runs: Seq<GhRun>, list: Seq<int>, k: int)
    requires
        0 <= k <= list.len(),
        one_per_branch(runs, list),
    ensures
        one_per_branch(runs, run_order(runs, list, k)),
        runs_newest_first(runs, run_order(runs, list, k)),
        run_order(runs, list, k).len() == k,
        forall|i: int| 0 <= i < k ==> list.take(k).contains(#[trigger] run_order(runs, list, k)[i]),
        forall|i: int| 0 <= i < k ==> run_order(runs, list, k).contains(#[trigger] list[i]),
    decreases k,
{
    if k > 0 {
        lemma_run_order(runs, list, k - 1);
        let before = run_order(runs, list, k - 1);
        let x = list[k - 1];
        assert forall|i: int| 0 <= i < before.len() implies branch_of(runs[#[trigger] before[i]])
            != branch_of(runs[x]) by {
            assert(list.take(k - 1).contains(before[i]));
            let taken = list.take(k - 1);
            let q = choose|q: int| 0 <= q < taken.len() && taken[q] == before[i];
            assert(list[q] == before[i]);
        }
        lemma_run_inserted(runs, before, x);
        let after = run_order(runs, list, k);
        assert forall|i: int| 0 <= i < k implies list.take(k).contains(#[trigger] after[i]) by {
            if after[i] == x {
                assert(list.take(k)[k - 1] == x);
            } else {
                assert(before.contains(after[i]));
                let p = choose|p: int| 0 <= p < before.len() && before[p] == after[i];
                assert(list.take(k - 1).contains(before[p]));
                let taken = list.take(k - 1);
                let q = choose|q: int| 0 <= q < taken.len() && taken[q] == after[i];
                assert(list.take(k)[q] == after[i]);
            }
        }
        assert forall|i: int| 0 <= i < k implies after.contains(#[trigger] list[i]) by {
            if i < k - 1 {
                assert(before.contains(list[i]));
            }
            assert(run_inserted(runs, before, x).contains(list[i]));
        }
    }
}

/// Of the runs there is one of each branch, the newest of it, and they stand newest first.
pub proof fn law_one_newest_run_per_branch(runs: Seq<GhRun>)
    ensures
        one_per_branch(runs, branch_runs(runs)),
        runs_newest_first(runs, branch_runs(runs)),
        forall|j: int|
            0 <= j < runs.len() && builds_branch(#[trigger] runs[j]) ==> covers(
                runs,
                branch_runs(runs),
                runs[j],
            ),
{
    let n = runs.len() as int;
    lemma_per_branch(runs, n);
    let kept = per_branch(runs, n);
    lemma_run_order(runs, kept, kept.len() as int);
    let list = branch_runs(runs);
    assert forall|j: int| 0 <= j < runs.len() && builds_branch(#[trigger] runs[j]) implies covers(
        runs,
        list,
        runs[j],
    ) by {
        assert(covers(runs, kept, runs[j]));
        let i = choose|i: int|
            0 <= i < kept.len() && branch_of(runs[#[trigger] kept[i]]) == branch_of(runs[j])
                && runs[kept[i]].run_number >= runs[j].run_number;
        assert(list.contains(kept[i]));
        let q = choose|q: int| 0 <= q < list.len() && list[q] == kept[i];
        assert(branch_of(runs[list[q]]) == branch_of(runs[j]));
    }
}

// --- One branch build ---

/// The characters an artifact's name may hold. The name is a part of the download's address, so
/// anything that could steer that address somewhere else is dropped rather than escaped.
pub open spec fn name_char(c: char) -> bool {
    text::alphanumeric(c) || c == '.' || c == '_' || c == '-'
}

pub open spec fn usable_name(name: Seq<char>) -> bool {
    name.len() > 0 && (forall|i: int| 0 <= i < name.len() ==> name_char(#[trigger] name[i]))
}

/// The first seven characters of a commit, in small letters.
pub open spec fn short(sha: Seq<char>) -> Seq<char> {
    text::small_text(if sha.len() > 7 {
        sha.take(7)
    } else {
        sha
    })
}

/// Where a run's artifact can be had without a token.
pub open spec fn artifact_url(id: u64, name: Seq<char>) -> Seq<char> {
    "https://nightly.link/mkiera/FlipperClipper/actions/runs/"@ + number::decimal(id as nat) + "/"@
        + name + ".zip"@
}

/// What the user is shown of a run and its artifact.
pub open spec fn shows(b: AlphaBuild, run: GhRun, name: Seq<char>) -> bool {
    &&& b.run_id == run.id
    &&& b.branch@ == branch_of(run)
    &&& b.sha@ == short(run.head_sha@)
    &&& b.run_number == run.run_number
    &&& text::maybe_text(b.created_at) == text::maybe_text(run.created_at)
    &&& b.artifact_name@ == name
    &&& b.download_url@ == artifact_url(run.id, name)
    &&& !b.is_current
}

fn name_is_usable(name: &str) -> (r: bool)
    ensures
        r == usable_name(name@),
{
    let chars = chars_of(name);
    if chars.len() == 0 {
        return false;
    }
    let mut i: usize = 0;
    while i < chars.len()
        invariant
            i <= chars.len(),
            chars@ == name@,
            forall|j: int| 0 <= j < i ==> name_char(#[trigger] name@[j]),
        decreases chars.len() - i,
    {
        let c = chars[i];
        if !(('0' <= c && c <= '9') || ('a' <= c && c <= 'z') || ('A' <= c && c <= 'Z') || c == '.'
            || c == '_' || c == '-') {
            proof {
                assert(!name_char(name@[i as int]));
            }
            return false;
        }
        i += 1;
    }
    true
}

pub fn short_sha(sha: &str) -> (r: String)
    ensures
        r@ == short(sha@),
{
    let chars = chars_of(sha);
    let n: usize = if chars.len() > 7 {
        7
    } else {
        chars.len()
    };
    let mut out = String::new();
    let mut i: usize = 0;
    while i < n
        invariant
            i <= n,
            n <= chars.len(),
            chars@ == sha@,
            out@ == text::small_text(sha@).take(i as int),
        decreases n - i,
    {
        out.push(small_char(chars[i]));
        i += 1;
        proof {
            assert(out@ =~= text::small_text(sha@).take(i as int));
        }
    }
    proof {
        assert(out@ =~= short(sha@));
    }
    out
}

/// The row for a run and the artifact it uploaded.
pub fn alpha_build(run: &GhRun, artifact_name: String) -> (r: Option<AlphaBuild>)
    ensures
        r is Some <==> usable_name(artifact_name@),
        r matches Some(b) ==> shows(b, *run, artifact_name@),
{
    if !name_is_usable(artifact_name.as_str()) {
        return None;
    }
    let mut url = joined_to(
        "https://nightly.link/mkiera/FlipperClipper/actions/runs/",
        decimal_text(run.id),
    );
    url.append("/");
    url.append(artifact_name.as_str());
    url.append(".zip");
    let branch = match &run.head_branch {
        Some(b) => copy(b),
        None => String::new(),
    };
    proof {
        assert(branch@ =~= branch_of(*run));
    }
    Some(
        AlphaBuild {
            run_id: run.id,
            branch,
            sha: short_sha(run.head_sha.as_str()),
            run_number: run.run_number,
            created_at: copy_maybe(&run.created_at),
            artifact_name,
            download_url: url,
            is_current: false,
        },
    )
}

/// The commit that the running build was made from, where it is known well enough to compare.
pub open spec fn running(sha: Option<Seq<char>>) -> Option<Seq<char>> {
    match sha {
        Some(s) => if short(s).len() == 7 {
            Some(short(s))
        } else {
            None
        },
        None => None,
    }
}

/// A row with the mark that says whether it is the running build, and otherwise as it was.
pub open spec fn marked(b: AlphaBuild, was: AlphaBuild, current: Option<Seq<char>>) -> bool {
    b == (AlphaBuild { is_current: current == Some(was.sha@), ..was })
}

/// Marks the running build among the rows, whether its commit arrives short or full.
pub fn mark_current(builds: Vec<AlphaBuild>, running_sha: Option<&str>) -> (r: Vec<AlphaBuild>)
    ensures
        r.len() == builds.len(),
        forall|i: int|
            0 <= i < r.len() ==> marked(
                #[trigger] r@[i],
                builds@[i],
                running(
                    match running_sha {
                        Some(s) => Some(s@),
                        None => None,
                    },
                ),
            ),
{
    let ghost sha = match running_sha {
        Some(s) => Some(s@),
        None => None,
    };
    let mine: Option<String> = match running_sha {
        Some(s) => {
            let sha = short_sha(s);
            if sha.as_str().unicode_len() == 7 {
                Some(sha)
            } else {
                None
            }
        },
        None => None,
    };
    let mut rows = builds;
    let mut i: usize = 0;
    while i < rows.len()
        invariant
            i <= rows.len(),
            rows.len() == builds.len(),
            text::maybe_text(mine) == running(sha),
            forall|j: int| 0 <= j < i ==> marked(#[trigger] rows@[j], builds@[j], running(sha)),
            forall|j: int| i <= j < rows.len() ==> #[trigger] rows@[j] == builds@[j],
        decreases rows.len() - i,
    {
        let here = match &mine {
            Some(s) => *s.as_str() == *rows[i].sha.as_str(),
            None => false,
        };
        let row = &mut rows[i];
        row.is_current = here;
        i += 1;
    }
    rows
}

// --- Gathering the branch builds ---

pub const RELEASES_URL: &'static str = "https://api.github.com/repos/mkiera/FlipperClipper/releases";

/// Scoped to the one workflow: an unscoped page buries branch builds under release runs.
pub const ALPHA_RUNS_URL: &'static str = "https://api.github.com/repos/mkiera/FlipperClipper/actions/workflows/build-test.yml/runs?status=success&per_page=30";

/// Each branch costs another of the anonymous requests that are allowed in an hour.
pub const ALPHA_MAX_BRANCHES: usize = 8;

/// The listing of branch builds while it is being gathered, one request for each branch.
pub struct AlphaSearch {
    pub runs: Vec<GhRun>,
    /// How many of the runs have been asked about.
    pub asked: usize,
    pub builds: Vec<AlphaBuild>,
}

/// Where a run's artifacts are listed. The artifact's name is asked for rather than derived from
/// the branch: only the run knows what it uploaded.
pub open spec fn artifacts_url(id: u64) -> Seq<char> {
    "https://api.github.com/repos/mkiera/FlipperClipper/actions/runs/"@ + number::decimal(id as nat)
        + "/artifacts"@
}

/// The first artifact from `i` on that has not expired, or the number of them.
pub open spec fn live_artifact(artifacts: Seq<GhArtifact>, i: int) -> int
    decreases artifacts.len() - i,
{
    if i >= artifacts.len() {
        artifacts.len() as int
    } else if !artifacts[i].expired {
        i
    } else {
        live_artifact(artifacts, i + 1)
    }
}

/// Whether a run's artifacts make a row.
pub open spec fn makes_row(artifacts: Seq<GhArtifact>) -> bool {
    let at = live_artifact(artifacts, 0);
    at < artifacts.len() && usable_name(artifacts[at].name@)
}

fn find_live(artifacts: &Vec<GhArtifact>) -> (r: usize)
    ensures
        r == live_artifact(artifacts@, 0),
        r <= artifacts.len(),
{
    let mut i: usize = 0;
    while i < artifacts.len()
        invariant
            i <= artifacts.len(),
            live_artifact(artifacts@, 0) == live_artifact(artifacts@, i as int),
        decreases artifacts.len() - i,
    {
        if !artifacts[i].expired {
            return i;
        }
        i += 1;
    }
    i
}

impl AlphaSearch {
    /// A search over the newest runs of a few branches.
    pub fn new(runs: Vec<GhRun>) -> (r: AlphaSearch)
        ensures
            r.asked == 0,
            r.builds@.len() == 0,
            r.runs.len() == (if branch_runs(runs@).len() > ALPHA_MAX_BRANCHES {
                ALPHA_MAX_BRANCHES as int
            } else {
                branch_runs(runs@).len() as int
            }),
            forall|i: int|
                0 <= i < r.runs.len() ==> taken_from(#[trigger] r.runs@[i], runs@, branch_runs(runs@)[i]),
    {
        let mut kept = newest_run_per_branch(runs);
        let ghost all = kept@;
        if kept.len() > ALPHA_MAX_BRANCHES {
            kept.truncate(ALPHA_MAX_BRANCHES);
        }
        proof {
            assert(forall|i: int| 0 <= i < kept.len() ==> #[trigger] kept@[i] == all[i]);
        }
        AlphaSearch { runs: kept, asked: 0, builds: Vec::new() }
    }

    /// The next request to make; `None` when the search is over.
    pub fn next_url(&self) -> (r: Option<String>)
        ensures
            r is Some <==> self.asked < self.runs.len(),
            r matches Some(url) ==> url@ == artifacts_url(self.runs@[self.asked as int].id),
    {
        if self.asked < self.runs.len() {
            let mut url = joined_to(
                "https://api.github.com/repos/mkiera/FlipperClipper/actions/runs/",
                decimal_text(self.runs[self.asked].id),
            );
            url.append("/artifacts");
            Some(url)
        } else {
            None
        }
    }

    /// Takes in the answer to that request. One refused request ends the search with the rows
    /// already gathered.
    pub fn answered(&mut self, artifacts: Option<Vec<GhArtifact>>)
        requires
            old(self).asked < old(self).runs.len(),
        ensures
            final(self).runs == old(self).runs,
            artifacts is None ==> final(self).asked == old(self).runs.len() && final(self).builds
                == old(self).builds,
            artifacts is Some ==> final(self).asked == old(self).asked + 1,
            artifacts matches Some(list) ==> (if makes_row(list@) {
                &&& final(self).builds@.len() == old(self).builds@.len() + 1
                &&& final(self).builds@.drop_last() == old(self).builds@
                &&& shows(
                    final(self).builds@.last(),
                    old(self).runs@[old(self).asked as int],
                    list@[live_artifact(list@, 0)].name@,
                )
            } else {
                final(self).builds@ == old(self).builds@
            }),
    {
        match artifacts {
            Some(list) => {
                let at = find_live(&list);
                if at < list.len() {
                    if let Some(build) = alpha_build(&self.runs[self.asked], copy(&list[at].name)) {
                        self.builds.push(build);
                        proof {
                            assert(self.builds@.drop_last() =~= old(self).builds@);
                        }
                    }
                }
                self.asked += 1;
            },
            None => {
                self.asked = self.runs.len();
            },
        }
    }
}

/// How long a listing of branch builds is reused.
pub const ALPHA_CACHE_MILLIS: u64 = 300_000;

/// Whether an earlier listing, this old, answers a request.
pub fn reuses_listing(refresh: bool, age_millis: u64) -> (r: bool)
    ensures
        r == (!refresh && age_millis < ALPHA_CACHE_MILLIS),
{
    !refresh && age_millis < ALPHA_CACHE_MILLIS
}

// --- Answers to the user ---

/// What the user is told of an answer GitHub refused. The anonymous limit is worth naming: it is
/// neither the network nor this application, and it clears by itself.
pub open spec fn refusal_text(code: u16, status: Seq<char>) -> Seq<char> {
    if code == 403 || code == 429 {
        "GitHub is rate limiting update checks right now."@
    } else {
        "GitHub answered the update check with HTTP "@ + status + "."@
    }
}

/// The message for an HTTP status, given its number and how it is written out.
pub fn github_error(code: u16, status: &str) -> (r: String)
    ensures
        r@ == refusal_text(code, status@),
{
    if code == 403 || code == 429 {
        return "GitHub is rate limiting update checks right now.".to_string();
    }
    let mut message = "GitHub answered the update check with HTTP ".to_string();
    message.append(status);
    message.append(".");
    message
}

/// The channel that a listing is asked for by name.
pub fn listed_channel(channel: &str) -> (r: Result<UpdateChannel, String>)
    ensures
        channel@ == "stable"@ ==> r == Ok::<UpdateChannel, String>(UpdateChannel::Stable),
        channel@ == "prerelease"@ ==> r == Ok::<UpdateChannel, String>(UpdateChannel::Prerelease),
        r is Ok ==> channel@ == "stable"@ || channel@ == "prerelease"@,
        r matches Err(e) ==> e@ == (if channel@ == "alpha"@ {
            "Alpha builds come from CI runs rather than releases, so ask list_alpha_builds for them."@
        } else {
            channel@ + " is not an update channel."@
        }),
{
    proof {
        reveal_strlit("alpha");
        reveal_strlit("stable");
        reveal_strlit("prerelease");
        assert("alpha"@.len() == 5 && "stable"@.len() == 6 && "prerelease"@.len() == 10);
    }
    if *channel == *"alpha" {
        return Err(
            "Alpha builds come from CI runs rather than releases, so ask list_alpha_builds for them.".to_string(),
        );
    }
    match UpdateChannel::parse(channel) {
        Some(c) => Ok(c),
        None => {
            let mut message = channel.to_string();
            message.append(" is not an update channel.");
            Err(message)
        },
    }
}

/// Why an installer is not fetched or not run while an export is under way.
#[derive(Debug, Clone, Copy, PartialEq, Eq, Structural)]
pub enum UpdateMoment {
    BeforeDownload,
    BeforeInstall,
}

/// Refuses to go on while an export runs: leaving would detach it, still writing to a file the
/// user thinks was abandoned.
pub fn refuse_while_exporting(running: bool, moment: UpdateMoment) -> (r: Result<(), String>)
    ensures
        r is Ok <==> !running,
        r matches Err(e) ==> e@ == (match moment {
            UpdateMoment::BeforeDownload =>
                "FlipperClipper is still exporting a clip. Let it finish, then update."@,
            UpdateMoment::BeforeInstall =>
                "FlipperClipper started exporting a clip while the update was downloading. Let it finish, then update."@,
        }),
{
    if !running {
        return Ok(());
    }
    match moment {
        UpdateMoment::BeforeDownload => Err(
            "FlipperClipper is still exporting a clip. Let it finish, then update.".to_string(),
        ),
        UpdateMoment::BeforeInstall => Err(
            "FlipperClipper started exporting a clip while the update was downloading. Let it finish, then update.".to_string(),
        ),
    }
}

/// Refuses an installer without a size: nothing downstream can tell a truncated one from a
/// complete one without a length to check against.
pub fn check_size(asset_name: &str, size_bytes: u64) -> (r: Result<(), String>)
    ensures
        r is Ok <==> size_bytes > 0,
        r matches Err(e) ==> e@ == "The release does not list a size for "@ + asset_name@
            + ", so the download cannot be verified."@,
{
    if size_bytes > 0 {
        return Ok(());
    }
    let mut message = "The release does not list a size for ".to_string();
    message.append(asset_name);
    message.append(", so the download cannot be verified.");
    Err(message)
}

/// The installer's switches: a progress window, closing what is in the way, and leaving the
/// relaunch to the installer's own script.
pub fn installer_switches() -> (r: Vec<String>)
    ensures
        text::texts(r@) == seq!["/SILENT"@, "/CLOSEAPPLICATIONS"@, "/NORESTARTAPPLICATIONS"@],
{
    broadcast use crate::text::texts_push;

    let mut args: Vec<String> = Vec::new();
    args.push("/SILENT".to_string());
    args.push("/CLOSEAPPLICATIONS".to_string());
    args.push("/NORESTARTAPPLICATIONS".to_string());
    args
}

/// The message for an archive without an installer in it.
pub fn no_installer_message(artifact_name: &str) -> (r: String)
    ensures
        r@ == artifact_name@ + " does not contain an installer, so there is nothing to run."@,
{
    let mut message = artifact_name.to_string();
    message.append(" does not contain an installer, so there is nothing to run.");
    message
}

/// The message for a branch build whose download is gone.
pub const ARTIFACT_GONE: &'static str = "That build's installer is no longer downloadable: CI artifacts are kept for 30 days, so this run's has expired, or the run predates the artifact.";

// --- What holds of every offer ---

/// The first asset that is an installer is the one that is offered, and an installer is told by
/// the end of its name, in any case.
pub proof fn law_the_first_installer_is_taken(assets: Seq<GhAsset>, from: int)
    requires
        0 <= from <= assets.len(),
    ensures
        from <= installer(assets, from) <= assets.len(),
        forall|i: int|
            from <= i < installer(assets, from) ==> !text::ends(
                text::small_text((#[trigger] assets[i]).name@),
                "-setup.exe"@,
            ),
        installer(assets, from) < assets.len() ==> text::ends(
            text::small_text(assets[installer(assets, from)].name@),
            "-setup.exe"@,
        ),
    decreases assets.len() - from,
{
    if from < assets.len() && !is_installer(assets[from].name@) {
        law_the_first_installer_is_taken(assets, from + 1);
    }
}

/// A release is offered exactly where it is published, has a version that is newer than the build
/// it is offered to and an installer, and is no pre-release unless the channel takes them.
pub proof fn law_what_can_be_offered_is(r: GhRelease, current: Seq<char>, channel: UpdateChannel, at: int)
    requires
        0 <= at < r.assets@.len(),
        text::ends(text::small_text(r.assets@[at].name@), "-setup.exe"@),
        version::is_version(tag_version(r)),
    ensures
        offers(r, current, channel) <==> {
            &&& !r.draft
            &&& version::semver_order(tag_version(r), current) > 0
            &&& channel is Prerelease || (!r.prerelease && (version::semver_fields(tag_version(r))->0).3.len()
                == 0)
        },
{
    law_the_first_installer_is_taken(r.assets@, 0);
    assert(r.assets@[at].name@ == r.assets@[at].name@);
}

/// The release that is offered is the newest: it can be offered itself, and no other that can has
/// a version that is newer. Nothing is offered exactly where no release can be. That versions are
/// in one order, as every comparison of two of them says, is what the law starts from.
pub proof fn law_the_newest_is_offered(
    releases: Seq<GhRelease>,
    current: Seq<char>,
    channel: UpdateChannel,
    k: int,
)
    requires
        0 <= k <= releases.len(),
        forall|a: int, b: int, c: int|
            0 <= a < k && 0 <= b < k && 0 <= c < k && #[trigger] version::semver_order(
                tag_version(releases[a]),
                tag_version(releases[b]),
            ) <= 0 && #[trigger] version::semver_order(
                tag_version(releases[b]),
                tag_version(releases[c]),
            ) <= 0 ==> version::semver_order(tag_version(releases[a]), tag_version(releases[c])) <= 0,
        forall|a: int, b: int|
            0 <= a < k && 0 <= b < k && #[trigger] version::semver_order(
                tag_version(releases[a]),
                tag_version(releases[b]),
            ) > 0 ==> version::semver_order(tag_version(releases[b]), tag_version(releases[a])) <= 0,
    ensures
        newest(releases, current, channel, k) is None <==> forall|j: int|
            0 <= j < k ==> !offers(#[trigger] releases[j], current, channel),
        newest(releases, current, channel, k) matches Some(best) ==> {
            &&& 0 <= best < k
            &&& offers(releases[best], current, channel)
            &&& forall|j: int|
                0 <= j < k && j != best && offers(#[trigger] releases[j], current, channel)
                    ==> version::semver_order(tag_version(releases[j]), tag_version(releases[best])) <= 0
        },
    decreases k,
{
    if k > 0 {
        law_the_newest_is_offered(releases, current, channel, k - 1);
        let before = newest(releases, current, channel, k - 1);
        if before is Some && offers(releases[k - 1], current, channel) && order(
            releases[k - 1],
            releases[before->0],
        ) > 0 {
            assert forall|j: int|
                0 <= j < k && j != k - 1 && offers(#[trigger] releases[j], current, channel) implies version::semver_order(
                tag_version(releases[j]),
                tag_version(releases[k - 1]),
            ) <= 0 by {
                assert(version::semver_order(
                    tag_version(releases[k - 1]),
                    tag_version(releases[before->0]),
                ) > 0);
                if j != before->0 {
                    assert(version::semver_order(
                        tag_version(releases[j]),
                        tag_version(releases[before->0]),
                    ) <= 0);
                    assert(version::semver_order(
                        tag_version(releases[before->0]),
                        tag_version(releases[k - 1]),
                    ) <= 0);
                }
            }
        }
    }
}

/// The first artifact that can still be had is the one that is offered.
pub proof fn law_the_first_live_artifact_is_taken(artifacts: Seq<GhArtifact>, from: int)
    requires
        0 <= from <= artifacts.len(),
    ensures
        from <= live_artifact(artifacts, from) <= artifacts.len(),
        forall|i: int| from <= i < live_artifact(artifacts, from) ==> (#[trigger] artifacts[i]).expired,
        live_artifact(artifacts, from) < artifacts.len() ==> !artifacts[live_artifact(
            artifacts,
            from,
        )].expired,
    decreases artifacts.len() - from,
{
    if from < artifacts.len() && artifacts[from].expired {
        law_the_first_live_artifact_is_taken(artifacts, from + 1);
    }
}

/// The name of an artifact stands in its address as one part: a name that is taken holds nothing
/// that parts an address, and the part behind the run's number is the name and its ending.
pub proof fn law_an_artifact_has_one_address(id: u64, name: Seq<char>, i: int)
    requires
        usable_name(name),
        0 <= i < name.len(),
    ensures
        name[i] != '/' && name[i] != '?' && name[i] != '#' && name[i] != '%' && name[i] != ':'
            && name[i] != ' ' && name[i] != '\\',
        text::ends(artifact_url(id, name), "/"@ + name + ".zip"@),
        artifact_url(id, name).take(56) == "https://nightly.link/mkiera/FlipperClipper/actions/runs/"@,
        artifact_url(id, name).subrange(56, 56 + number::decimal(id as nat).len() as int)
            == number::decimal(id as nat),
{
    reveal_strlit("https://nightly.link/mkiera/FlipperClipper/actions/runs/");
    reveal_strlit("/");
    reveal_strlit(".zip");
    assert(name_char(name[i]));
    let host = "https://nightly.link/mkiera/FlipperClipper/actions/runs/"@;
    let url = artifact_url(id, name);
    let tail = "/"@ + name + ".zip"@;
    assert(url =~= host + number::decimal(id as nat) + tail);
    assert(url.take(56) =~= host);
    assert(url.subrange(56, 56 + number::decimal(id as nat).len() as int) =~= number::decimal(id as nat));
    assert(url.skip(url.len() - tail.len()) =~= tail);
}

/// A commit is shown by its first seven characters, in small letters.
pub proof fn law_a_commit_is_shown_short(sha: Seq<char>, i: int)
    requires
        0 <= i < sha.len(),
        '0' <= sha[i] <= '9' || 'a' <= sha[i] <= 'f',
    ensures
        short(sha).len() == if sha.len() < 7 {
            sha.len() as int
        } else {
            7
        },
        i < 7 ==> short(sha)[i] == sha[i],
{
}

} // verus!
