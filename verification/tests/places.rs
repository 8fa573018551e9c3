use flipperclipper::hunt::{Hunt, TreeEntry, Wanted, HUNT_DEPTH};
use flipperclipper::settings::{from_json_str, sanitise, AppSettings, UpdateChannel, DEFAULT_TARGET_MB};
use flipperclipper::sysutil::{
    diagnostic_dirs, distinct_dirs, filmstrip_args, hex16, last_meaningful_line,
    parse_version_line, path_answer, path_key, path_query, probe_args, proxy_args, proxy_name,
    second_look, status_of, strip_frame, version_outcome, VersionRun,
};
use flipperclipper::tools::{
    filters_in, has_filter, known_places, next_tier, search_on, split_path_list, DirFilter,
    FolderQueue, FolderStep, SearchState, Tier, ToolLookup, Tools,
};
use flipperclipper::updater::{
    check_size, github_error, installer_named, installer_switches, listed_channel,
    no_installer_message, refuse_while_exporting, reuses_listing, short_sha, AlphaSearch,
    GhArtifact, GhRun, UpdateMoment, ALPHA_CACHE_MILLIS,
};
use flipperclipper::version::Version;

fn q(v: f64) -> i64 {
    (v * 1e9).round() as i64
}

/// The folders a search looks in, and how many tiers it asks on the way to each.
fn walk(folders: impl Fn(Tier) -> Vec<&'static str>) -> Vec<(String, usize)> {
    let mut queue = FolderQueue::new();
    let mut asked = 0;
    let mut looked = Vec::new();
    loop {
        match queue.step() {
            FolderStep::Look(dir) => looked.push((dir, asked)),
            FolderStep::Ask(tier) => {
                asked += 1;
                queue.answered(folders(tier).into_iter().map(str::to_string).collect());
            }
            FolderStep::Over => return looked,
        }
    }
}

#[test]
fn the_app_own_copy_is_the_first_directory_tried() {
    let looked = walk(|tier| match tier {
        Tier::Managed => vec!["C:\\app\\ffmpeg"],
        Tier::Inherited => vec!["C:\\Windows", "c:\\APP\\ffmpeg\\", "C:\\a"],
        Tier::User => vec![],
        Tier::Machine => vec!["C:\\machine", "C:\\A"],
        Tier::Known => vec!["C:\\links"],
    });
    assert_eq!(
        looked,
        [
            ("C:\\app\\ffmpeg".to_string(), 1),
            ("C:\\Windows".to_string(), 2),
            ("C:\\a".to_string(), 2),
            ("C:\\machine".to_string(), 4),
            ("C:\\links".to_string(), 5),
        ]
    );
    assert!(walk(|_| Vec::new()).is_empty());
    assert_eq!(next_tier(Tier::Managed), Some(Tier::Inherited));
    assert_eq!(next_tier(Tier::Known), None);
}

#[test]
fn the_record_names_the_places_in_the_order_of_the_search() {
    let places = diagnostic_dirs(
        Some("C:\\app\\ffmpeg".to_string()),
        Some("C:\\Windows;C:\\a"),
        Some("C:\\user"),
        None,
        vec!["C:\\links".to_string()],
    );
    let seen: Vec<(&str, &str)> = places.iter().map(|p| (p.tier, p.dir.as_str())).collect();
    assert_eq!(
        seen,
        [
            ("managed", "C:\\app\\ffmpeg"),
            ("PATH", "C:\\Windows"),
            ("PATH", "C:\\a"),
            ("registry User", "C:\\user"),
            ("known dir", "C:\\links"),
        ]
    );
}

#[test]
fn a_folder_is_looked_in_once() {
    let places = diagnostic_dirs(None, Some("C:\\A;c:\\a\\;C:\\b"), None, Some("C:/B"), Vec::new());
    let kept: Vec<String> = distinct_dirs(places).into_iter().map(|p| p.dir).collect();
    assert_eq!(kept, ["C:\\A", "C:\\b", "C:/B"]);
    let mut filter = DirFilter::new();
    assert!(filter.accept("C:\\ÄPP"));
    assert!(!filter.accept("c:\\äpp\\"));
    assert!(!filter.accept(""));
    assert!(split_path_list(";\"\";").is_empty());
}

#[test]
fn the_winget_links_dir_is_the_first_known_place() {
    let (var, tail) = &known_places()[0];
    assert_eq!(*var, "LOCALAPPDATA");
    assert_eq!(*tail, ["Microsoft", "WinGet", "Links"]);
}

#[test]
fn a_tool_that_was_found_is_remembered_until_it_is_forgotten() {
    let mut tools = Tools::new();
    assert!(matches!(tools.resolve_tool("ffmpeg"), ToolLookup::Search));
    let found = tools.resolve_tool_with_version(
        "ffmpeg",
        None,
        Some(("C:\\f.exe".to_string(), "v".to_string())),
    );
    assert_eq!(found, Some(("C:\\f.exe".to_string(), "v".to_string())));
    assert!(matches!(tools.resolve_tool("ffmpeg"), ToolLookup::Known(p) if p == "C:\\f.exe"));
    assert_eq!(
        tools.resolve_tool_with_version("ffmpeg", Some("again".to_string()), None),
        Some(("C:\\f.exe".to_string(), "again".to_string()))
    );
    assert_eq!(tools.cached_tool("ffprobe"), None);
    tools.forget_resolved_tools();
    assert_eq!(tools.cached_tool("ffmpeg"), None);

    assert_eq!(tools.managed_dir(Some("usual".to_string())), Some("usual".to_string()));
    tools.set_managed_dir("mine".to_string());
    assert_eq!(tools.managed_dir(Some("usual".to_string())), Some("mine".to_string()));
}

#[test]
fn only_what_runs_ends_a_search_with_a_find() {
    let at = search_on(SearchState::NextFolder, true);
    assert_eq!(at, SearchState::Exists);
    let at = search_on(at, true);
    assert_eq!(at, SearchState::Runs { bare: false });
    assert_eq!(search_on(at, true), SearchState::Found { target: false });
    let link = search_on(at, false);
    assert_eq!(search_on(search_on(link, true), true), SearchState::Found { target: true });
    assert_eq!(search_on(link, false), SearchState::NextFolder);
    let bare = search_on(SearchState::NextFolder, false);
    assert_eq!(search_on(search_on(bare, false), false), SearchState::Missing);
}

#[test]
fn a_listing_names_its_filters() {
    let listing = "Filters:\n  T.. = Timeline support\n ... drawtext         V->V       Draw text\n ..C scale            V->V       Scale\n";
    let filters = filters_in(listing);
    assert!(has_filter(&filters, "drawtext"));
    assert!(has_filter(&filters, "scale"));
    assert!(!has_filter(&filters, "draw"));
}

#[test]
fn a_version_is_the_third_word() {
    assert_eq!(
        parse_version_line("ffmpeg version 7.1-essentials Copyright\nbuilt").as_deref(),
        Some("7.1-essentials")
    );
    assert_eq!(parse_version_line("ffprobe version 7.1"), None);
    assert_eq!(parse_version_line(""), None);
    assert!(!status_of(None).available);
    assert_eq!(status_of(Some("ffmpeg version n8")).version.as_deref(), Some("n8"));
}

#[test]
fn a_version_run_says_how_it_went() {
    assert_eq!(version_outcome(&VersionRun::Ran), "ran, exit 0");
    assert_eq!(
        version_outcome(&VersionRun::NotStarted("denied".to_string())),
        "could not start: denied"
    );
    let long = "x".repeat(200);
    assert_eq!(
        version_outcome(&VersionRun::Failed {
            status: "exit code: 1".to_string(),
            stderr: format!("first\n{long}\n\n"),
        }),
        format!("exit code: 1, {}...", "x".repeat(160))
    );
    assert_eq!(
        version_outcome(&VersionRun::Failed {
            status: "exit code: 1".to_string(),
            stderr: " \n".to_string(),
        }),
        "exit code: 1"
    );
    assert_eq!(last_meaningful_line("a\r\n b \r\n\r\n").as_deref(), Some("b"));
    assert_eq!(second_look(None), "still not found");
    assert_eq!(second_look(Some("C:\\f.exe")), "found at C:\\f.exe");
    assert_eq!(
        path_query("User", false),
        "[Console]::OutputEncoding=[Text.Encoding]::UTF8; [Environment]::GetEnvironmentVariable('Path','User')"
    );
    assert_eq!(
        path_query("Machine", true),
        "[Console]::OutputEncoding=[Text.Encoding]::UTF8; [Environment]::ExpandEnvironmentVariables([Environment]::GetEnvironmentVariable('Path','Machine'))"
    );
    assert_eq!(path_answer(" C:\\a \r\n").as_deref(), Some("C:\\a"));
    assert_eq!(path_answer(" \n"), None);
}

#[test]
fn a_filmstrip_is_spread_over_the_clip() {
    let args = filmstrip_args("in.mp4", "frame%04d.jpg", 12, 60, q(7.0)).unwrap();
    let at = args.iter().position(|a| a == "-vf").unwrap();
    assert_eq!(args[at + 1], format!("fps={:.6},scale=-2:60", 12.0 / 7.0));
    let args = filmstrip_args("in.mp4", "p", 0, 9999, q(2.0)).unwrap();
    assert!(args.contains(&"fps=0.500000,scale=-2:240".to_string()));
    assert_eq!(
        filmstrip_args("in.mp4", "p", 1, 60, 0).unwrap_err(),
        "That video has no duration to draw a filmstrip from."
    );
    assert_eq!(strip_frame(b"foo"), "data:image/jpeg;base64,Zm9v");
    assert_eq!(probe_args("in.mp4").last().unwrap(), "in.mp4");
    assert!(proxy_args("in.mp4", "out.mp4").contains(&"scale=w='min(960,iw)':h=-2".to_string()));
}

#[test]
fn one_file_has_one_preview() {
    assert_eq!(path_key("C:\\Clips\\A.MP4"), path_key("c:\\clips\\a.mp4"));
    assert_ne!(path_key("C:\\clips\\a.mp4"), path_key("C:\\clips\\b.mp4"));
    assert_eq!(path_key("x").len(), 16);
    assert_eq!(hex16(0xdead_beef), "00000000deadbeef");
    assert!(proxy_name("x").starts_with("flipperclipper-proxy-"));
    assert_eq!(proxy_name("A"), proxy_name("a"));
}

#[test]
fn settings_settle_after_one_pass() {
    let mut wild = AppSettings::default();
    wild.default_target_mb = q(0.1);
    let once = sanitise(wild, true);
    assert_eq!(sanitise(once, true), once);
    assert_eq!(sanitise(wild, false).default_target_mb, DEFAULT_TARGET_MB);
    let loaded = from_json_str(r#"{"updateChannel": 7, "autoCheckUpdates": false}"#);
    assert_eq!(loaded.update_channel, UpdateChannel::Stable);
    assert!(!loaded.auto_check_updates);
}

fn run(id: u64) -> GhRun {
    GhRun {
        id,
        name: Some("Build Test".to_string()),
        head_branch: Some(format!("feature/{id}")),
        head_sha: "a1b2c3d4e5f6".to_string(),
        run_number: id,
        created_at: None,
    }
}

#[test]
fn a_run_is_listed_with_the_first_artifact_that_is_still_there() {
    let mut search = AlphaSearch::new((1..=10).map(run).collect());
    let mut asked = 0;
    while let Some(url) = search.next_url() {
        asked += 1;
        assert!(url.contains("/actions/runs/"), "{url}");
        let answer = match asked {
            2 => Some(vec![GhArtifact { name: "FlipperClipper-Setup_a".to_string(), expired: true }]),
            _ => Some(vec![
                GhArtifact { name: "FlipperClipper-Setup_a".to_string(), expired: true },
                GhArtifact { name: "FlipperClipper-Setup_b".to_string(), expired: false },
            ]),
        };
        search.answered(answer);
    }
    assert_eq!(asked, 8);
    assert_eq!(search.builds.len(), 7);
    assert_eq!(search.builds[0].artifact_name, "FlipperClipper-Setup_b");

    // One refused request keeps what was gathered and asks no more.
    let mut search = AlphaSearch::new((1..=3).map(run).collect());
    search.answered(Some(vec![GhArtifact { name: "a".to_string(), expired: false }]));
    search.answered(None);
    assert_eq!(search.next_url(), None);
    assert_eq!(search.builds.len(), 1);
}

#[test]
fn update_requests_are_refused_for_a_reason() {
    assert!(installer_named("FlipperClipper-Setup.exe"));
    assert!(!installer_named("FlipperClipper-portable.exe"));
    assert_eq!(listed_channel("stable"), Ok(UpdateChannel::Stable));
    assert!(listed_channel("alpha").is_err());
    assert!(refuse_while_exporting(false, UpdateMoment::BeforeDownload).is_ok());
    assert_ne!(
        refuse_while_exporting(true, UpdateMoment::BeforeDownload),
        refuse_while_exporting(true, UpdateMoment::BeforeInstall)
    );
    assert!(check_size("a.exe", 0).is_err());
    assert!(check_size("a.exe", 1).is_ok());
    assert!(github_error(500, "500 Internal Server Error").contains("500 Internal Server Error"));
    assert!(no_installer_message("artifact-x").contains("artifact-x"));
    assert!(!installer_switches().is_empty());
    assert!(reuses_listing(false, ALPHA_CACHE_MILLIS - 1));
    assert!(!reuses_listing(true, 0));
    assert!(!reuses_listing(false, ALPHA_CACHE_MILLIS));
    assert_eq!(short_sha("A1B2C3D4E5F6"), "a1b2c3d");
}

#[test]
fn versions_are_ordered_by_their_rules() {
    let v = |s: &str| Version::parse(s).unwrap();
    assert!(v("1.10.0").compare(&v("1.9.0")) > 0);
    assert!(v("1.0.0-beta.2").compare(&v("1.0.0-beta.11")) < 0);
    assert!(v("1.0.0-beta").compare(&v("1.0.0")) < 0);
    assert_eq!(v("1.0.0").compare(&v("1.0.0")), 0);
    assert!(v("1.0.0-beta").is_prerelease());
    assert!(!v("1.0.0").is_prerelease());
    assert_eq!(v("1.2.3-beta.1+x").written(), "1.2.3-beta.1+x");
    assert!(Version::parse("v1.0.0").is_none());
    assert!(Version::parse("1.0").is_none());
}

fn file(dir: &str, name: &str) -> TreeEntry {
    TreeEntry { path: format!("{dir}\\{name}"), name: name.to_string(), folder: false }
}

fn folder(dir: &str, name: &str) -> TreeEntry {
    TreeEntry { path: format!("{dir}\\{name}"), name: name.to_string(), folder: true }
}

#[test]
fn a_file_nearer_the_top_beats_a_deeper_one() {
    let wanted = Wanted::Named("FFMPEG.exe".to_string());
    let mut hunt = Hunt::new("t".to_string());
    let mut seen = Vec::new();
    while let Some(dir) = hunt.next_folder() {
        let listing = match dir.as_str() {
            "t" => Some(vec![folder("t", "a"), folder("t", "b"), file("t", "readme")]),
            "t\\a" => Some(vec![folder("t\\a", "deep"), file("t\\a", "ffplay.exe")]),
            "t\\a\\deep" => None,
            "t\\b" => Some(vec![folder("t\\b", "deep"), file("t\\b", "ffmpeg.exe")]),
            other => panic!("{other} is not looked in"),
        };
        seen.push(dir);
        hunt.listed(listing, &wanted);
    }
    assert_eq!(seen, ["t", "t\\a", "t\\a\\deep", "t\\b"]);
    assert_eq!(hunt.found().as_deref(), Some("t\\b\\ffmpeg.exe"));
}

#[test]
fn a_hunt_goes_three_levels_down() {
    let mut hunt = Hunt::new("0".to_string());
    let mut depth = 0;
    while let Some(dir) = hunt.next_folder() {
        depth += 1;
        hunt.listed(Some(vec![folder(&dir, "n")]), &Wanted::Installer);
    }
    assert_eq!(depth, 1 + HUNT_DEPTH as i32);
    assert_eq!(hunt.found(), None);
    assert!(Wanted::Installer.accepts("FlipperClipper-SETUP.EXE"));
    assert!(!Wanted::Installer.accepts("readme.txt"));
}
