use tlm::codec::{gzip_compress, gzip_decompress, parse_doc_text, utf8_decode, ParseErrorKind};
use tlm::model::{Model, Track};

#[test]
fn gzip_round_trips_text() {
    let text = "\x0cTLM\t100\n\x0cTRACKS\n\x0cHISTORY\n";
    let bytes = gzip_compress(text);
    assert_eq!(bytes[0], 0x1f);
    assert_eq!(bytes[1], 0x8b);
    assert_ne!(bytes, text.as_bytes());
    let back = gzip_decompress(&bytes).unwrap();
    assert_eq!(back, text);
}

#[test]
fn gzip_decompress_rejects_garbage() {
    let garbage = vec![0x1fu8, 0x8b, 0x00, 0x01, 0x02];
    assert!(gzip_decompress(&garbage).is_none());
}

#[test]
fn utf8_decode_accepts_text_and_rejects_bad_bytes() {
    assert_eq!(utf8_decode(&b"hello".to_vec()).unwrap(), "hello");
    assert!(utf8_decode(&vec![0xffu8, 0xfe]).is_none());
}

#[test]
fn empty_document_parses_to_nothing() {
    // The original accepts a file of blank lines as an empty document.
    let parsed = parse_doc_text("\n\n").unwrap();
    assert_eq!(parsed.forest.len(), 0);
    assert_eq!(parsed.tracks.len(), 0);
    assert_eq!(parsed.history.len(), 0);
}

#[test]
fn missing_tracks_header_is_an_error() {
    let err = parse_doc_text("\x0cTLM\t100\nWRONG\n").unwrap_err();
    assert_eq!(err.lino, 2);
    assert_eq!(err.kind, ParseErrorKind::MissingTracks);
    assert_eq!(err.message(), "error:2: missing TRACKS");
}

#[test]
fn over_deep_nesting_is_an_error() {
    // A list two levels below a top-level list, with no level between.
    let err = parse_doc_text("\x0cTLM\t100\n\x0cTRACKS\n\x0bTop\n\x0b\x0b\x0bDeep\n").unwrap_err();
    assert_eq!(err.lino, 4);
    assert_eq!(err.kind, ParseErrorKind::BadIndent);
}

#[test]
fn nested_lists_and_positions_parse() {
    let text = "\x0cTLM\t100\n\x0cTRACKS\n\x0bA\n\x0b\x0bB\nx/03-One_Two.mp3\t7.250\n\x0bC\nother.ogg\t0.000\n\x0cHISTORY\n";
    let parsed = parse_doc_text(text).unwrap();
    assert_eq!(parsed.tracks.len(), 2);
    assert_eq!(parsed.tracks[0].filename, "x/03-One_Two.mp3");
    assert_eq!(parsed.tracks[0].millis, 7250);
    assert_eq!(parsed.tracks[1].filename, "other.ogg");
    assert_eq!(parsed.tracks[1].millis, 0);
    let mut m = Model::new(10);
    m.load_from_bytes(&text.as_bytes().to_vec()).unwrap();
    let paths: Vec<String> = m.all_entries().iter().map(|e| e.path.clone()).collect();
    assert_eq!(paths, vec![
        String::from("A"),
        String::from("A/B"),
        String::from("A/B/One Two"),
        String::from("C"),
        String::from("C/other"),
    ]);
}

#[test]
fn duplicate_parsed_paths_get_the_id_appended() {
    let text = "\x0cTLM\t100\n\x0cTRACKS\n\x0bA\na/01-Same.mp3\t1.000\nb/02-Same.mp3\t2.000\n\x0cHISTORY\n";
    let mut m = Model::new(10);
    m.load_from_bytes(&text.as_bytes().to_vec()).unwrap();
    let paths: Vec<String> = m.all_entries().iter().map(|e| e.path.clone()).collect();
    assert_eq!(paths, vec![
        String::from("A"),
        String::from("A/Same"),
        String::from("A/Same (2)"),
    ]);
}

#[test]
fn malformed_positions_read_as_zero() {
    let text = "\x0cTLM\t100\n\x0cTRACKS\n\x0bA\none.mp3\tgarbage\ntwo.mp3\t3.5\n\x0cHISTORY\n";
    let parsed = parse_doc_text(text).unwrap();
    assert_eq!(parsed.tracks[0].millis, 0);
    assert_eq!(parsed.tracks[1].millis, 3500);
}

#[test]
fn deep_trees_survive_a_round_trip() {
    // Tracks are written before sublists here, since a track line in the
    // format belongs to the most recent list header above it.
    let mut m = Model::new(10);
    m.add_empty_list("<Top-Level>", "A").unwrap();
    m.add_track(&String::from("A"), Track::new(String::from("top/10-Ten.mp3"), 1000)).unwrap();
    m.add_empty_list("A", "B").unwrap();
    m.add_empty_list("A/B", "C").unwrap();
    m.add_track(&String::from("A/B/C"), Track::new(String::from("deep/09-Nine.mp3"), 4250))
        .unwrap();
    m.add_empty_list("<Top-Level>", "Z").unwrap();
    let bytes = m.save_to_bytes();
    let mut m2 = Model::new(10);
    m2.load_from_bytes(&bytes).unwrap();
    let before: Vec<String> = m.all_entries().iter().map(|e| e.path.clone()).collect();
    let after: Vec<String> = m2.all_entries().iter().map(|e| e.path.clone()).collect();
    assert_eq!(before, after);
    let entries = m2.all_entries();
    let nine = entries.iter().find(|e| e.path == "A/B/C/Nine").unwrap();
    assert_eq!(m2.track_for_item(&nine.loc).unwrap().millis, 4250);
}

#[test]
fn a_track_written_after_sublists_reattaches_to_the_deepest_list() {
    // The format cannot place a track after its list's sublists: a track
    // line always belongs to the most recent list header.  Reading such a
    // document back hangs the track under the deepest open list.
    let mut m = Model::new(10);
    m.add_empty_list("<Top-Level>", "A").unwrap();
    m.add_empty_list("A", "B").unwrap();
    m.add_track(&String::from("A"), Track::new(String::from("late.mp3"), 0)).unwrap();
    let bytes = m.save_to_bytes();
    let mut m2 = Model::new(10);
    m2.load_from_bytes(&bytes).unwrap();
    let paths: Vec<String> = m2.all_entries().iter().map(|e| e.path.clone()).collect();
    assert_eq!(paths, vec![
        String::from("A"),
        String::from("A/B"),
        String::from("A/B/late"),
    ]);
}

#[test]
fn unreadable_bytes_fail_without_touching_state() {
    let mut m = Model::new(10);
    m.add_empty_list("<Top-Level>", "Keep").unwrap();
    // A gzip header followed by garbage: undecodable.
    let err = m.load_from_bytes(&vec![0x1fu8, 0x8b, 0xff]).unwrap_err();
    assert_eq!(err.kind, ParseErrorKind::Unreadable);
    assert_eq!(m.all_entries().len(), 1);
}

#[test]
fn carriage_returns_before_newlines_are_dropped() {
    let text = "\x0cTLM\t100\r\n\x0cTRACKS\r\n\x0bRock\r\none.mp3\t1.000\r\n\x0cHISTORY\r\nRock/one\r\n";
    let mut m = Model::new(10);
    m.load_from_bytes(&text.as_bytes().to_vec()).unwrap();
    let paths: Vec<String> = m.all_entries().iter().map(|e| e.path.clone()).collect();
    assert_eq!(paths, vec![String::from("Rock"), String::from("Rock/one")]);
    assert_eq!(m.history_iter(), vec![String::from("Rock/one")]);
}

#[test]
fn repeated_history_lines_keep_their_first_position() {
    let text = "\x0cTLM\t100\n\x0cTRACKS\n\x0cHISTORY\na\nb\na\n";
    let mut m = Model::new(10);
    m.load_from_bytes(&text.as_bytes().to_vec()).unwrap();
    assert_eq!(m.history_iter(), vec![String::from("a"), String::from("b")]);
}
