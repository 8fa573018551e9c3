use flipperclipper::probe::parse_probe;

/// A quantity of the library as a plain number.
fn seconds(v: i64) -> f64 {
    v as f64 / 1e9
}

const LANDSCAPE_JSON: &str = r#"{
  "streams": [
    {
      "index": 0, "codec_name": "h264", "codec_type": "video",
      "width": 1920, "height": 1080,
      "r_frame_rate": "30000/1001", "avg_frame_rate": "30000/1001",
      "duration": "20.020000",
      "disposition": { "default": 1, "attached_pic": 0 }
    },
    {
      "index": 1, "codec_name": "aac", "codec_type": "audio",
      "sample_rate": "48000", "channels": 2, "duration": "20.011000",
      "disposition": { "default": 1, "attached_pic": 0 }
    }
  ],
  "format": {
    "filename": "C:\\clips\\a.mp4", "nb_streams": 2,
    "format_name": "mov,mp4,m4a,3gp,3g2,mj2",
    "duration": "20.021000", "size": "5242880", "bit_rate": "2094000"
  }
}"#;

#[test]
fn parse_probe_reads_a_plain_landscape_clip() {
    let info = parse_probe(LANDSCAPE_JSON, "C:\\clips\\a.mp4", 5_242_880).unwrap();
    assert_eq!(info.path, "C:\\clips\\a.mp4");
    assert_eq!(info.width, 1920);
    assert_eq!(info.height, 1080);
    assert_eq!(info.rotation, 0);
    assert!((seconds(info.duration) - 20.021).abs() < 1e-6);
    assert!((seconds(info.fps) - 29.970_029_97).abs() < 1e-6);
    assert!(info.has_audio);
    assert_eq!(info.video_codec, "h264");
    assert_eq!(info.audio_codec.as_deref(), Some("aac"));
    assert_eq!(info.size_bytes, 5_242_880);
}

#[test]
fn parse_probe_swaps_the_dimensions_of_a_rotated_portrait_clip() {
    let json = r#"{
      "streams": [
        {
          "index": 0, "codec_name": "hevc", "codec_type": "video",
          "width": 1920, "height": 1080, "r_frame_rate": "30/1",
          "side_data_list": [
            { "side_data_type": "Display Matrix",
              "displaymatrix": "00000000: 0 65536 0", "rotation": -90 }
          ],
          "tags": { "rotate": "90" }
        },
        { "index": 1, "codec_name": "aac", "codec_type": "audio" }
      ],
      "format": { "duration": "12.500000" }
    }"#;
    let info = parse_probe(json, "C:\\clips\\phone.mov", 1_000).unwrap();
    // Stored 1920x1080, displayed 1080x1920. The crop overlay measures the
    // displayed frame, so this is the pair everything downstream uses.
    assert_eq!(info.width, 1080);
    assert_eq!(info.height, 1920);
    assert_eq!(info.rotation, 270);
    assert_eq!(info.video_codec, "hevc");
}

#[test]
fn parse_probe_falls_back_to_the_legacy_rotate_tag() {
    let json = r#"{
      "streams": [
        { "codec_name": "h264", "codec_type": "video",
          "width": 1280, "height": 720, "r_frame_rate": "25/1",
          "tags": { "rotate": "270" } }
      ],
      "format": { "duration": "5.0" }
    }"#;
    let info = parse_probe(json, "x.mov", 0).unwrap();
    assert_eq!(info.rotation, 270);
    assert_eq!(info.width, 720);
    assert_eq!(info.height, 1280);
}

#[test]
fn parse_probe_does_not_swap_at_180_degrees() {
    let json = r#"{
      "streams": [
        { "codec_name": "h264", "codec_type": "video",
          "width": 1280, "height": 720, "r_frame_rate": "25/1",
          "tags": { "rotate": "180" } }
      ],
      "format": { "duration": "5.0" }
    }"#;
    let info = parse_probe(json, "x.mov", 0).unwrap();
    assert_eq!(info.rotation, 180);
    assert_eq!(info.width, 1280);
    assert_eq!(info.height, 720);
}

#[test]
fn parse_probe_reports_a_file_with_no_audio() {
    let json = r#"{
      "streams": [
        { "codec_name": "h264", "codec_type": "video",
          "width": 854, "height": 480, "r_frame_rate": "60/1" }
      ],
      "format": { "duration": "3.25" }
    }"#;
    let info = parse_probe(json, "silent.mp4", 42).unwrap();
    assert!(!info.has_audio);
    assert_eq!(info.audio_codec, None);
    assert!((seconds(info.fps) - 60.0).abs() < 1e-9);
    assert!((seconds(info.duration) - 3.25).abs() < 1e-9);
}

#[test]
fn parse_probe_ignores_cover_art_when_looking_for_the_video_track() {
    let json = r#"{
      "streams": [
        { "codec_name": "mjpeg", "codec_type": "video",
          "width": 600, "height": 600, "r_frame_rate": "90000/1",
          "disposition": { "attached_pic": 1 } },
        { "codec_name": "h264", "codec_type": "video",
          "width": 1920, "height": 1080, "r_frame_rate": "24/1",
          "disposition": { "attached_pic": 0 } }
      ],
      "format": { "duration": "8.0" }
    }"#;
    let info = parse_probe(json, "art.mp4", 0).unwrap();
    assert_eq!(info.width, 1920);
    assert_eq!(info.video_codec, "h264");
}

#[test]
fn parse_probe_defaults_a_broken_frame_rate_to_thirty() {
    let json = r#"{
      "streams": [
        { "codec_name": "h264", "codec_type": "video",
          "width": 640, "height": 360,
          "r_frame_rate": "0/0", "avg_frame_rate": "0/0" }
      ],
      "format": { "duration": "1.0" }
    }"#;
    let info = parse_probe(json, "vfr.mkv", 0).unwrap();
    assert!((seconds(info.fps) - 30.0).abs() < 1e-9);
}

#[test]
fn parse_probe_falls_back_to_the_stream_duration() {
    let json = r#"{
      "streams": [
        { "codec_name": "h264", "codec_type": "video",
          "width": 640, "height": 360, "r_frame_rate": "30/1",
          "duration": "7.5" }
      ],
      "format": { "size": "1000" }
    }"#;
    let info = parse_probe(json, "nodur.mkv", 0).unwrap();
    assert!((seconds(info.duration) - 7.5).abs() < 1e-9);
}

#[test]
fn parse_probe_falls_back_when_the_container_advertises_a_zero_duration() {
    // Remuxed MKV/TS files and several screen recorders write a literal zero at the format level
    // rather than omitting the key, so a fallback that only triggers on a missing key never runs
    // on the files that need it most.
    let json = r#"{
      "streams": [
        { "codec_name": "h264", "codec_type": "video",
          "width": 1920, "height": 1080, "r_frame_rate": "30/1",
          "duration": "63.400000" }
      ],
      "format": { "duration": "0.000000", "size": "1000" }
    }"#;
    let info = parse_probe(json, "remux.mkv", 0).unwrap();
    assert!((seconds(info.duration) - 63.4).abs() < 1e-9);
}

#[test]
fn parse_probe_rejects_files_it_cannot_edit() {
    assert!(parse_probe("not json", "x", 0).is_err());
    assert!(parse_probe(r#"{"format":{}}"#, "x", 0).is_err());
    let audio_only = r#"{
      "streams": [ { "codec_name": "mp3", "codec_type": "audio" } ],
      "format": { "duration": "60.0" }
    }"#;
    assert!(parse_probe(audio_only, "song.mp3", 0).is_err());
}

/// A clip that says these things of its length and its rate.
fn clip(container: &str, stream: &str, rate: &str) -> String {
    format!(
        r#"{{"streams":[{{"codec_type":"video","codec_name":"h264","width":640,"height":360,
        "duration":"{stream}","r_frame_rate":"{rate}"}}],"format":{{"duration":"{container}"}}}}"#
    )
}

#[test]
fn a_rate_of_two_positive_numbers_is_a_rate_however_slow() {
    let fps = |rate: &str| parse_probe(&clip("5", "5", rate), "a", 1).unwrap().fps;
    assert_eq!(fps("1/9000000000"), 1);
    assert_eq!(fps("0.0000000001/1"), 1);
    assert_eq!(fps("1/90000000000"), 1);
    assert_eq!(fps("1/2"), 500_000_000);
    assert_eq!(fps("24000000000000/1001000000000"), 23_976_023_976);
    assert_eq!(fps("900000000000/0.01"), i64::MAX);
    assert_eq!(fps("0/1"), 30_000_000_000);
    assert_eq!(fps("1e-400/1"), 30_000_000_000);
    assert_eq!(fps("1e400/1"), 30_000_000_000);
    assert_eq!(fps("1/1e400"), 30_000_000_000);
    assert_eq!(fps("30/-1"), 30_000_000_000);
}

#[test]
fn a_length_past_what_a_double_holds_is_none() {
    let length = |container: &str, stream: &str| {
        parse_probe(&clip(container, stream, "30/1"), "a", 1).unwrap().duration
    };
    assert_eq!(length("1e400", "2.5"), 2_500_000_000);
    assert_eq!(length("1e-400", "2.5"), 2_500_000_000);
    assert_eq!(length("0.0000000001", "2.5"), 1);
}
