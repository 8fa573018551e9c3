use flipperclipper::ffmpeg_install::{download_failed, FFMPEG_URL, NO_CONNECTION, NO_SPACE};

#[test]
fn the_source_is_the_versionless_gyan_essentials_zip() {
    // Versioned URLs go stale every release; this one redirects to the current build.
    assert_eq!(
        FFMPEG_URL,
        "https://www.gyan.dev/ffmpeg/builds/ffmpeg-release-essentials.zip"
    );
}

#[test]
fn an_unreachable_host_reads_as_a_connection_problem() {
    assert_eq!(
        download_failed("Could not reach the download: dns error".to_string()),
        NO_CONNECTION
    );
}

#[test]
fn a_full_disk_reads_as_free_space_rather_than_an_error_number() {
    assert_eq!(
        download_failed("Could not write the download: os error 112".to_string()),
        NO_SPACE
    );
}

#[test]
fn a_short_download_keeps_the_byte_counts_it_came_with() {
    let detail = "The download stopped early — got 5 bytes of the 9 it should have.";
    assert_eq!(download_failed(detail.to_string()), detail);
}
