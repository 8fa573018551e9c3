use flipperclipper::settings::UpdateChannel;
use flipperclipper::updater::{
    alpha_build, mark_current, newest_run_per_branch, pick_update, releases_for_channel,
    short_sha, AlphaBuild, GhAsset, GhRelease, GhRun, ReleaseInfo,
};
use flipperclipper::version::Version;
use serde_json::Value;

fn version(raw: &str) -> Version {
    Version::parse(raw).expect("test version should parse")
}

fn text(value: &Value, name: &str) -> String {
    maybe_text(value, name).unwrap_or_default()
}

fn maybe_text(value: &Value, name: &str) -> Option<String> {
    value.get(name).and_then(Value::as_str).map(str::to_string)
}

fn flag(value: &Value, name: &str) -> bool {
    value.get(name).and_then(Value::as_bool).unwrap_or(false)
}

fn whole(value: &Value, name: &str) -> u64 {
    value.get(name).and_then(Value::as_u64).unwrap_or(0)
}

fn listed<'a>(value: &'a Value, name: &str) -> &'a [Value] {
    match value.get(name) {
        Some(Value::Array(items)) => items,
        _ => &[],
    }
}

fn releases(json: &str) -> Vec<GhRelease> {
    let value: Value = serde_json::from_str(json).expect("test payload should deserialise");
    let items = value.as_array().expect("a list").clone();
    items
        .iter()
        .map(|release| GhRelease {
            tag_name: text(release, "tag_name"),
            html_url: text(release, "html_url"),
            draft: flag(release, "draft"),
            prerelease: flag(release, "prerelease"),
            published_at: maybe_text(release, "published_at"),
            assets: listed(release, "assets")
                .iter()
                .map(|asset| GhAsset {
                    name: text(asset, "name"),
                    browser_download_url: text(asset, "browser_download_url"),
                    size: whole(asset, "size"),
                })
                .collect(),
        })
        .collect()
}

fn runs(json: &str) -> Vec<GhRun> {
    let value: Value = serde_json::from_str(json).expect("test payload should deserialise");
    listed(&value, "workflow_runs")
        .iter()
        .map(|run| GhRun {
            id: whole(run, "id"),
            name: maybe_text(run, "name"),
            head_branch: maybe_text(run, "head_branch"),
            head_sha: text(run, "head_sha"),
            run_number: whole(run, "run_number"),
            created_at: maybe_text(run, "created_at"),
        })
        .collect()
}

fn versions(listed: &[ReleaseInfo]) -> Vec<&str> {
    listed.iter().map(|info| info.version.as_str()).collect()
}

fn built(sha: &str) -> AlphaBuild {
    AlphaBuild {
        run_id: 1,
        branch: "feature/x".to_string(),
        sha: short_sha(sha),
        run_number: 1,
        created_at: None,
        artifact_name: "FlipperClipper-Setup_x".to_string(),
        download_url: "u".to_string(),
        is_current: false,
    }
}

const STABLE: UpdateChannel = UpdateChannel::Stable;
const PRERELEASE: UpdateChannel = UpdateChannel::Prerelease;

/// Trimmed from what api.github.com actually returned, so the field names and types are the
/// real ones. A response serde cannot read fails here rather than becoming "no update".
const REAL_PAYLOAD: &str = r#"[
  {
    "html_url": "https://github.com/mkiera/FlipperClipper/releases/tag/v0.1.0-beta",
    "tag_name": "v0.1.0-beta",
    "draft": false,
    "prerelease": true,
    "published_at": "2026-08-14T19:02:11Z",
    "assets": [
      {
        "name": "FlipperClipper-Setup.exe",
        "size": 3309048,
        "browser_download_url": "https://github.com/mkiera/FlipperClipper/releases/download/v0.1.0-beta/FlipperClipper-Setup.exe"
      }
    ]
  }
]"#;

const LISTING_PAYLOAD: &str = r#"[
  {"html_url":"h2","tag_name":"v0.2.0","draft":false,"prerelease":false,
   "published_at":"2026-03-02T10:00:00Z",
   "assets":[{"name":"FlipperClipper-Setup.exe","size":2,"browser_download_url":"u2"}]},
  {"html_url":"h4","tag_name":"v0.4.0-beta.1","draft":false,"prerelease":true,
   "published_at":"2026-05-04T10:00:00Z",
   "assets":[{"name":"FlipperClipper-Setup.exe","size":4,"browser_download_url":"u4"}]},
  {"html_url":"h9","tag_name":"v0.9.0","draft":true,"prerelease":false,
   "published_at":null,
   "assets":[{"name":"FlipperClipper-Setup.exe","size":9,"browser_download_url":"u9"}]},
  {"html_url":"h5","tag_name":"v0.5.0","draft":false,"prerelease":false,
   "published_at":null,"assets":[]},
  {"html_url":"h3","tag_name":"v0.3.0","draft":false,"prerelease":false,
   "published_at":"2026-04-03T10:00:00Z",
   "assets":[{"name":"FlipperClipper-Setup.exe","size":3,"browser_download_url":"u3"}]}
]"#;

/// Trimmed from a real /actions/runs page. Two runs of one branch, a run of another workflow,
/// and a run with no branch, because all three reach this code in practice.
const RUNS_PAYLOAD: &str = r#"{
  "total_count": 4,
  "workflow_runs": [
    {"id": 501, "name": "Build Test", "head_branch": "feature/crop-handles",
     "head_sha": "A1B2C3D4E5F60718293A4B5C6D7E8F9012345678", "run_number": 12,
     "created_at": "2026-08-16T09:31:02Z", "event": "push", "conclusion": "success"},
    {"id": 499, "name": "Build Test", "head_branch": "feature/crop-handles",
     "head_sha": "999999999999999999999999999999999999aaaa", "run_number": 11,
     "created_at": "2026-08-15T09:31:02Z", "event": "push", "conclusion": "success"},
    {"id": 498, "name": "Build and Release", "head_branch": "main",
     "head_sha": "bbbbbbbbbbbbbbbbbbbbbbbbbbbbbbbbbbbbbbbb", "run_number": 40,
     "created_at": "2026-08-14T09:31:02Z", "event": "push", "conclusion": "success"},
    {"id": 497, "name": "Build Test", "head_branch": "bugfix/proxy-leak",
     "head_sha": "cccccccccccccccccccccccccccccccccccccccc", "run_number": 10,
     "created_at": "2026-08-13T09:31:02Z", "event": "push", "conclusion": "success"}
  ]
}"#;

#[test]
fn the_real_github_payload_deserialises_and_is_offered_on_the_prerelease_channel() {
    let picked = pick_update(releases(REAL_PAYLOAD), &version("0.0.9-beta"), PRERELEASE)
        .expect("an older build on the pre-release channel should be offered this one");
    assert_eq!(picked.version, "0.1.0-beta");
    assert_eq!(picked.asset_name, "FlipperClipper-Setup.exe");
    assert_eq!(picked.size_bytes, 3309048);
    assert!(picked.prerelease);
    assert!(picked.download_url.ends_with("/FlipperClipper-Setup.exe"));
}

#[test]
fn the_stable_channel_is_never_pulled_onto_a_prerelease() {
    // The channel decides this, not the running version.
    assert!(pick_update(releases(REAL_PAYLOAD), &version("0.0.1"), STABLE).is_none());
    assert!(pick_update(releases(REAL_PAYLOAD), &version("0.0.9-beta"), STABLE).is_none());
}

#[test]
fn the_running_version_is_not_offered_to_itself() {
    // Ship a build whose version does not match its tag and it is offered
    // its own release forever.
    assert!(pick_update(releases(REAL_PAYLOAD), &version("0.1.0-beta"), PRERELEASE).is_none());
    assert!(pick_update(releases(REAL_PAYLOAD), &version("0.2.0-beta"), PRERELEASE).is_none());
}

#[test]
fn the_first_stable_release_reaches_the_beta_builds_on_both_channels() {
    // Every tag before 1.0.0 was a pre-release, so nobody left on the default Stable
    // channel has ever been offered anything. 1.0.0 is the first, and it has to reach
    // the pre-release channel as well or those users are stranded on a beta.
    let payload = r#"[
      {"html_url":"h","tag_name":"v1.0.0","draft":false,"prerelease":false,
       "assets":[{"name":"FlipperClipper-Setup.exe","size":10,"browser_download_url":"u"}]}
    ]"#;
    for channel in [STABLE, PRERELEASE] {
        let picked = pick_update(releases(payload), &version("0.1.16-beta"), channel)
            .expect("1.0.0 outranks every 0.1.x beta on either channel");
        assert_eq!(picked.version, "1.0.0");
        assert!(!picked.prerelease);
    }
}

#[test]
fn the_stable_release_of_a_version_updates_its_prerelease() {
    let payload = r#"[
      {"html_url":"h","tag_name":"v0.1.0","draft":false,"prerelease":false,
       "assets":[{"name":"FlipperClipper-Setup.exe","size":10,"browser_download_url":"u"}]}
    ]"#;
    let picked = pick_update(releases(payload), &version("0.1.0-beta"), STABLE)
        .expect("0.1.0 is newer than 0.1.0-beta and stable, so it is offered");
    assert_eq!(picked.version, "0.1.0");
    assert!(!picked.prerelease);
}

#[test]
fn the_newest_release_wins_regardless_of_the_order_github_lists_them() {
    let payload = r#"[
      {"html_url":"h","tag_name":"v0.3.0","draft":false,"prerelease":false,
       "assets":[{"name":"FlipperClipper-Setup.exe","size":3,"browser_download_url":"u3"}]},
      {"html_url":"h","tag_name":"v0.9.0","draft":false,"prerelease":false,
       "assets":[{"name":"FlipperClipper-Setup.exe","size":9,"browser_download_url":"u9"}]},
      {"html_url":"h","tag_name":"v0.5.0","draft":false,"prerelease":false,
       "assets":[{"name":"FlipperClipper-Setup.exe","size":5,"browser_download_url":"u5"}]}
    ]"#;
    let picked = pick_update(releases(payload), &version("0.1.0"), STABLE).expect("something is newer");
    assert_eq!(picked.version, "0.9.0");
}

#[test]
fn drafts_and_unparseable_tags_are_skipped_rather_than_guessed_at() {
    let payload = r#"[
      {"html_url":"h","tag_name":"v9.9.9","draft":true,"prerelease":false,
       "assets":[{"name":"FlipperClipper-Setup.exe","size":1,"browser_download_url":"u"}]},
      {"html_url":"h","tag_name":"nightly","draft":false,"prerelease":false,
       "assets":[{"name":"FlipperClipper-Setup.exe","size":1,"browser_download_url":"u"}]},
      {"html_url":"h","tag_name":"v0.2.0","draft":false,"prerelease":false,
       "assets":[{"name":"FlipperClipper-Setup.exe","size":2,"browser_download_url":"u2"}]}
    ]"#;
    let picked = pick_update(releases(payload), &version("0.1.0"), STABLE).expect("v0.2.0 is usable");
    assert_eq!(picked.version, "0.2.0");
}

#[test]
fn a_release_still_uploading_does_not_hide_an_older_usable_one() {
    // A tag exists the moment the workflow starts; the asset appears minutes later.
    let payload = r#"[
      {"html_url":"h","tag_name":"v0.4.0","draft":false,"prerelease":false,"assets":[]},
      {"html_url":"h","tag_name":"v0.2.0","draft":false,"prerelease":false,
       "assets":[{"name":"FlipperClipper-Setup.exe","size":2,"browser_download_url":"u2"}]}
    ]"#;
    let picked = pick_update(releases(payload), &version("0.1.0"), STABLE).expect("v0.2.0 is ready");
    assert_eq!(picked.version, "0.2.0");
}

#[test]
fn only_the_setup_exe_is_ever_offered() {
    let payload = r#"[
      {"html_url":"h","tag_name":"v0.2.0","draft":false,"prerelease":false,
       "assets":[
         {"name":"FlipperClipper-portable.exe","size":1,"browser_download_url":"bad"},
         {"name":"checksums.txt","size":1,"browser_download_url":"bad"},
         {"name":"FlipperClipper-Setup.exe","size":7,"browser_download_url":"good"}
       ]}
    ]"#;
    let picked = pick_update(releases(payload), &version("0.1.0"), STABLE).expect("the setup exe");
    assert_eq!(picked.download_url, "good");
    assert_eq!(picked.size_bytes, 7);
}

#[test]
fn an_empty_release_list_is_not_an_error() {
    assert!(pick_update(releases("[]"), &version("0.1.0"), STABLE).is_none());
}

#[test]
fn the_stable_listing_is_newest_first_and_drops_drafts_prereleases_and_assetless_releases() {
    let listed = releases_for_channel(releases(LISTING_PAYLOAD), STABLE);
    assert_eq!(versions(&listed), vec!["0.3.0", "0.2.0"]);
}

#[test]
fn the_prerelease_listing_carries_both_kinds() {
    let listed = releases_for_channel(releases(LISTING_PAYLOAD), PRERELEASE);
    assert_eq!(versions(&listed), vec!["0.4.0-beta.1", "0.3.0", "0.2.0"]);
    assert!(listed[0].prerelease);
    assert!(!listed[1].prerelease);
}

#[test]
fn the_listing_keeps_releases_older_than_the_running_build() {
    // The listing is what makes downgrading possible, so unlike pick_update it compares nothing
    // against the running version.
    let listed = releases_for_channel(releases(LISTING_PAYLOAD), STABLE);
    assert!(listed.iter().any(|info| info.version == "0.2.0"));
}

#[test]
fn a_listed_release_carries_everything_the_settings_panel_shows() {
    let listed = releases_for_channel(releases(REAL_PAYLOAD), PRERELEASE);
    let only = listed.first().expect("one release");
    assert_eq!(only.version, "0.1.0-beta");
    assert_eq!(only.tag_name, "v0.1.0-beta");
    assert_eq!(only.published_at.as_deref(), Some("2026-08-14T19:02:11Z"));
    assert_eq!(only.asset_name, "FlipperClipper-Setup.exe");
    assert_eq!(only.size_bytes, 3309048);
    assert!(only.prerelease);
    assert!(only.release_url.ends_with("/tag/v0.1.0-beta"));
}

#[test]
fn a_release_with_no_published_date_still_lists() {
    let payload = r#"[
      {"html_url":"h","tag_name":"v0.2.0","draft":false,"prerelease":false,
       "assets":[{"name":"FlipperClipper-Setup.exe","size":2,"browser_download_url":"u2"}]}
    ]"#;
    let listed = releases_for_channel(releases(payload), STABLE);
    assert_eq!(versions(&listed), vec!["0.2.0"]);
    assert!(listed[0].published_at.is_none());
}

#[test]
fn only_build_test_runs_are_alpha_builds_and_only_the_newest_per_branch() {
    let kept = newest_run_per_branch(runs(RUNS_PAYLOAD));
    let ids: Vec<u64> = kept.iter().map(|run| run.id).collect();
    // 499 is an older run of the same branch, 498 is the release workflow.
    assert_eq!(ids, vec![501, 497]);
}

#[test]
fn a_run_with_no_branch_is_skipped_rather_than_listed_blank() {
    let payload = r#"{"workflow_runs":[
      {"id":1,"name":"Build Test","head_branch":null,"head_sha":"dddddddd","run_number":1}
    ]}"#;
    assert!(newest_run_per_branch(runs(payload)).is_empty());
}

#[test]
fn no_build_test_runs_yet_is_an_empty_list_rather_than_an_error() {
    assert!(newest_run_per_branch(runs(r#"{"workflow_runs":[]}"#)).is_empty());
}

#[test]
fn a_row_carries_the_nightly_link_url_for_the_artifact_the_run_actually_uploaded() {
    let run = newest_run_per_branch(runs(RUNS_PAYLOAD)).remove(0);
    // Whatever build-test.yml uploaded is what gets downloaded; the name is never derived here.
    let build = alpha_build(&run, "FlipperClipper-Setup_handles-retry".to_string())
        .expect("a sane artifact name is usable");
    assert_eq!(build.run_id, 501);
    assert_eq!(build.branch, "feature/crop-handles");
    assert_eq!(build.sha, "a1b2c3d");
    assert_eq!(build.run_number, 12);
    assert_eq!(build.created_at.as_deref(), Some("2026-08-16T09:31:02Z"));
    assert_eq!(
        build.download_url,
        "https://nightly.link/mkiera/FlipperClipper/actions/runs/501/FlipperClipper-Setup_handles-retry.zip"
    );
    assert!(!build.is_current);
}

#[test]
fn an_artifact_name_that_could_steer_the_download_url_is_dropped() {
    let run = newest_run_per_branch(runs(RUNS_PAYLOAD)).remove(0);
    assert!(alpha_build(&run, "../../evil".to_string()).is_none());
    assert!(alpha_build(&run, "a/b".to_string()).is_none());
    assert!(alpha_build(&run, String::new()).is_none());
    assert!(alpha_build(&run, "FlipperClipper-Setup_ok.1".to_string()).is_some());
}

#[test]
fn the_running_build_is_marked_whether_its_sha_arrives_short_or_full() {
    let rows = vec![built("a1b2c3d4e5f6"), built("ffffffffffff")];
    let full = mark_current(rows.clone(), Some("A1B2C3D4E5F60718293A4B5C6D7E8F9012345678"));
    assert!(full[0].is_current && !full[1].is_current);

    let short = mark_current(rows.clone(), Some("a1b2c3d"));
    assert!(short[0].is_current && !short[1].is_current);
}

#[test]
fn an_unstamped_build_marks_nothing_as_current() {
    // build-info.json is not committed, so a dev run has no sha to send.
    let rows = vec![built("a1b2c3d4e5f6")];
    assert!(!mark_current(rows.clone(), None)[0].is_current);
    assert!(!mark_current(rows.clone(), Some(""))[0].is_current);
    assert!(!mark_current(rows, Some("a1b2"))[0].is_current);
}
