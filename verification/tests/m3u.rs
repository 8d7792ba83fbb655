use tlm::m3u::{parse_m3u, M3uErrorKind};

#[test]
fn a_small_playlist_parses() {
    let text = "#EXTM3U\n\n#EXTINF:-1,You and I\n/home/mark/music/Queen/05-You_and_I.mp3\n#EXTINF:207,Other\n/m/other.ogg\n";
    let tracks = parse_m3u(text).unwrap();
    assert_eq!(tracks.len(), 2);
    assert_eq!(tracks[0].filename, "/home/mark/music/Queen/05-You_and_I.mp3");
    // A negative duration reads as zero.
    assert_eq!(tracks[0].millis, 0);
    assert_eq!(tracks[1].filename, "/m/other.ogg");
    assert_eq!(tracks[1].millis, 207000);
}

#[test]
fn lines_are_trimmed_before_reading() {
    let text = "  #EXTM3U  \n#EXTINF:1,T\n  /m/a.mp3  \n";
    let tracks = parse_m3u(text).unwrap();
    assert_eq!(tracks[0].filename, "/m/a.mp3");
    assert_eq!(tracks[0].millis, 1000);
}

#[test]
fn missing_header_fails_on_its_line() {
    let err = parse_m3u("#EXTINF:1,T\n/m/a.mp3\n").unwrap_err();
    assert_eq!(err.lino, 1);
    assert_eq!(err.kind, M3uErrorKind::MissingHeader);
}

#[test]
fn a_filename_where_info_was_expected_fails() {
    let err = parse_m3u("#EXTM3U\n/m/a.mp3\n").unwrap_err();
    assert_eq!(err.lino, 2);
    assert_eq!(err.kind, M3uErrorKind::ExpectedInfo);
}

#[test]
fn an_info_line_without_a_comma_fails() {
    let err = parse_m3u("#EXTM3U\n#EXTINF:123\n").unwrap_err();
    assert_eq!(err.lino, 2);
    assert_eq!(err.kind, M3uErrorKind::BadInfo);
}

#[test]
fn two_info_lines_in_a_row_fail() {
    let err = parse_m3u("#EXTM3U\n#EXTINF:1,A\n#EXTINF:2,B\n").unwrap_err();
    assert_eq!(err.lino, 3);
    assert_eq!(err.kind, M3uErrorKind::UnexpectedInfo);
}

#[test]
fn a_playlist_that_ends_mid_entry_is_accepted() {
    let tracks = parse_m3u("#EXTM3U\n#EXTINF:5,T\n").unwrap();
    assert_eq!(tracks.len(), 0);
}

#[test]
fn fractional_durations_keep_their_milliseconds() {
    let tracks = parse_m3u("#EXTM3U\n#EXTINF:12.5,T\n/m/a.mp3\n").unwrap();
    assert_eq!(tracks[0].millis, 12500);
}
