use flipperclipper::calendar::utc_stamp;
use flipperclipper::sysutil::{clip_to, filmstrip_frames, render_check_log};
use flipperclipper::tools::split_path_list;

fn at(secs: u64) -> String {
    utc_stamp(secs)
}

#[test]
fn the_stamp_is_utc_and_survives_leap_years() {
    assert_eq!(at(0), "1970-01-01T00:00:00Z");
    // 2000 is a leap year under the 400 rule the era arithmetic exists to get right.
    assert_eq!(at(951_782_400), "2000-02-29T00:00:00Z");
    assert_eq!(at(1_700_000_000), "2023-11-14T22:13:20Z");
}

#[test]
fn the_log_names_the_tier_and_the_reason_for_every_candidate() {
    let rows = vec![
        (
            "PATH",
            "C:\\Windows\\System32\\ffmpeg.exe".to_string(),
            "no such file".to_string(),
        ),
        (
            "known dir",
            "C:\\Links\\ffmpeg.exe".to_string(),
            "exit code: 3221225781".to_string(),
        ),
    ];
    let text = render_check_log("2026-08-17T09:00:00Z", "C:\\Windows\\System32", &rows);

    assert!(text.starts_with("FlipperClipper ffmpeg check - 2026-08-17T09:00:00Z\n"));
    assert!(text.contains("inherited PATH: C:\\Windows\\System32\n"));
    assert!(text.contains("  [PATH] C:\\Windows\\System32\\ffmpeg.exe -> no such file\n"));
    assert!(text.contains("  [known dir] C:\\Links\\ffmpeg.exe -> exit code: 3221225781\n"));
}

#[test]
fn a_long_stderr_line_is_clipped_rather_than_dumped() {
    assert_eq!(clip_to("short", 160), "short");
    assert_eq!(clip_to("abcdef", 3), "abc...");
}

#[test]
fn the_path_list_splits_the_way_windows_writes_it() {
    assert_eq!(
        split_path_list("C:\\a; \"C:\\b b\" ;;C:\\c"),
        vec![
            "C:\\a".to_string(),
            "C:\\b b".to_string(),
            "C:\\c".to_string(),
        ]
    );
}

#[test]
fn the_whole_record_of_a_failed_check() {
    let rows = vec![
        (
            "PATH",
            "C:\\Windows\\System32\\ffmpeg.exe".to_string(),
            "no such file".to_string(),
        ),
        (
            "known dir",
            "C:\\Links\\ffmpeg.exe".to_string(),
            "exit code: 3221225781".to_string(),
        ),
    ];
    let text = render_check_log("2026-08-17T09:00:00Z", "C:\\Windows\\System32", &rows);
    let lines: Vec<&str> = text.split('\n').collect();
    assert_eq!(lines.len(), 7);
    assert_eq!(lines[0], "FlipperClipper ffmpeg check - 2026-08-17T09:00:00Z");
    assert_eq!(
        lines[1].split_once(": "),
        Some(("verdict", "ffmpeg could not be run"))
    );
    assert_eq!(lines[2], "inherited PATH: C:\\Windows\\System32");
    assert_eq!(lines[3], "tried, in order:");
    assert_eq!(lines[4], "  [PATH] C:\\Windows\\System32\\ffmpeg.exe -> no such file");
    assert_eq!(lines[5], "  [known dir] C:\\Links\\ffmpeg.exe -> exit code: 3221225781");
    assert_eq!(lines[6], "");
}

#[test]
fn the_frames_of_a_strip_come_in_playback_order() {
    let names = |list: &[&str]| -> Vec<String> { list.iter().map(|s| s.to_string()).collect() };
    assert_eq!(
        filmstrip_frames(names(&[
            "frame0010.jpg",
            "frame0002.jpg",
            "notes.txt",
            ".jpg",
            "frame0001.JPG",
            "frame0001.jpg",
            "jpg",
            "frame0003.jpg.tmp",
            "a.jpg",
        ])),
        names(&["a.jpg", "frame0001.jpg", "frame0002.jpg", "frame0010.jpg"])
    );
    assert_eq!(filmstrip_frames(names(&["b.jpg", "\u{e9}.jpg", "B.jpg", "b.jpg"])),
        names(&["B.jpg", "b.jpg", "b.jpg", "\u{e9}.jpg"]));
    assert!(filmstrip_frames(Vec::new()).is_empty());
}
