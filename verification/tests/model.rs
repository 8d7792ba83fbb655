use tlm::codec::ParseErrorKind;
use tlm::model::{icon_bucket, Current, Model, Track};

fn sample_model() -> Model {
    let mut m = Model::new(10);
    let (rock_path, _rock_loc) = m.add_empty_list("<Top-Level>", "Rock").unwrap();
    assert_eq!(rock_path, "Rock");
    let track = Track::new(String::from("/music/01-Song.mp3"), 12500);
    let (track_path, _loc) = m.add_track(&rock_path, track).unwrap();
    assert_eq!(track_path, "Rock/Song");
    m
}

#[test]
fn new_model_is_empty_and_clean() {
    let m = Model::new(10);
    assert!(!m.is_dirty());
    assert_eq!(m.all_entries().len(), 0);
    assert_eq!(m.history_iter().len(), 0);
    assert!(m.history_front().is_none());
}

#[test]
fn add_list_and_track_mark_dirty() {
    let m = sample_model();
    assert!(m.is_dirty());
    let entries = m.all_entries();
    assert_eq!(entries.len(), 2);
    assert_eq!(entries[0].path, "Rock");
    assert_eq!(entries[1].path, "Rock/Song");
    assert_eq!(entries[1].tid, Some(1));
}

#[test]
fn add_list_rejects_duplicates_and_missing_parents() {
    let mut m = Model::new(10);
    assert!(m.add_empty_list("<Top-Level>", "Rock").is_some());
    assert!(m.add_empty_list("<Top-Level>", "Rock").is_none());
    assert!(m.add_empty_list("Nowhere", "Jazz").is_none());
    assert!(m.add_empty_list("Rock", "Jazz").is_some());
}

#[test]
fn duplicate_track_labels_get_the_id_appended() {
    let mut m = Model::new(10);
    let (rock, _) = m.add_empty_list("<Top-Level>", "Rock").unwrap();
    let (p1, _) = m.add_track(&rock, Track::new(String::from("a/01-Song.mp3"), 0)).unwrap();
    let (p2, _) = m.add_track(&rock, Track::new(String::from("b/02-Song.mp3"), 0)).unwrap();
    assert_eq!(p1, "Rock/Song");
    assert_eq!(p2, "Rock/Song (2)");
}

#[test]
fn track_for_item_resolves_through_the_registry() {
    let mut m = Model::new(10);
    let (rock, _) = m.add_empty_list("<Top-Level>", "Rock").unwrap();
    let (_, loc) = m.add_track(&rock, Track::new(String::from("x/Tune.mp3"), 777)).unwrap();
    let t = m.track_for_item(&loc).unwrap();
    assert_eq!(t.filename, "x/Tune.mp3");
    assert_eq!(t.millis, 777);
}

#[test]
fn history_record_moves_to_front_and_stays_bounded() {
    let mut m = Model::new(2);
    assert!(m.history_add_to(String::from("a"), -1, 0));
    assert!(m.history_add_to(String::from("b"), -1, 0));
    assert!(m.history_add_to(String::from("c"), -1, 0));
    let h = m.history_iter();
    assert_eq!(h, vec![String::from("c"), String::from("b")]);
    assert!(m.history_add_to(String::from("b"), -1, 0));
    assert_eq!(m.history_iter(), vec![String::from("b"), String::from("c")]);
    // Recording the front entry again changes nothing.
    assert!(!m.history_add_to(String::from("b"), -1, 0));
    assert_eq!(m.history_iter(), vec![String::from("b"), String::from("c")]);
}

#[test]
fn history_record_updates_a_track_position() {
    let mut m = sample_model();
    let changed = m.history_add_to(String::from("Rock/Song"), 1, 99000);
    assert!(changed);
    let h = m.history_iter();
    assert_eq!(h[0], "Rock/Song");
    let entries = m.all_entries();
    let t = m.track_for_item(&entries[1].loc).unwrap();
    assert_eq!(t.millis, 99000);
}

#[test]
fn history_delete_and_shrink() {
    let mut m = Model::new(10);
    m.history_add_to(String::from("a"), -1, 0);
    m.history_add_to(String::from("b"), -1, 0);
    m.history_add_to(String::from("c"), -1, 0);
    m.history_delete_item(1);
    assert_eq!(m.history_iter(), vec![String::from("c"), String::from("a")]);
    m.history_shrink();
    assert_eq!(m.history_iter(), vec![String::from("c")]);
    assert_eq!(m.history_front().unwrap(), "c");
}

#[test]
fn move_up_and_down_swap_siblings() {
    let mut m = Model::new(10);
    m.add_empty_list("<Top-Level>", "A").unwrap();
    m.add_empty_list("<Top-Level>", "B").unwrap();
    let entries = m.all_entries();
    assert_eq!(entries[0].path, "A");
    // The first kid cannot move further up.
    assert!(!m.move_up(&entries[0].loc));
    assert!(m.move_up(&entries[1].loc));
    let after = m.all_entries();
    assert_eq!(after[0].path, "B");
    assert_eq!(after[1].path, "A");
    assert!(m.move_down(&after[0].loc));
    let back = m.all_entries();
    assert_eq!(back[0].path, "A");
}

#[test]
fn promote_of_top_level_node_is_rejected() {
    let mut m = sample_model();
    let entries = m.all_entries();
    assert_eq!(entries[0].path, "Rock");
    let before: Vec<String> = entries.iter().map(|e| e.path.clone()).collect();
    assert!(!m.promote(&entries[0].loc));
    let after: Vec<String> = m.all_entries().iter().map(|e| e.path.clone()).collect();
    assert_eq!(before, after);
}

#[test]
fn promote_lifts_a_nested_node_to_its_grandparent() {
    let mut m = Model::new(10);
    m.add_empty_list("<Top-Level>", "A").unwrap();
    m.add_empty_list("A", "B").unwrap();
    let entries = m.all_entries();
    assert_eq!(entries[1].path, "A/B");
    assert!(m.promote(&entries[1].loc));
    let after = m.all_entries();
    assert_eq!(after.len(), 2);
    assert_eq!(after[0].path, "A");
    assert_eq!(after[1].path, "B");
}

#[test]
fn demote_into_a_track_sibling_is_rejected() {
    let mut m = Model::new(10);
    let (rock, _) = m.add_empty_list("<Top-Level>", "Rock").unwrap();
    m.add_track(&rock, Track::new(String::from("x/One.mp3"), 0)).unwrap();
    m.add_track(&rock, Track::new(String::from("x/Two.mp3"), 0)).unwrap();
    let entries = m.all_entries();
    assert_eq!(entries[2].path, "Rock/Two");
    let before: Vec<String> = entries.iter().map(|e| e.path.clone()).collect();
    assert!(!m.demote(&entries[2].loc));
    let after: Vec<String> = m.all_entries().iter().map(|e| e.path.clone()).collect();
    assert_eq!(before, after);
}

#[test]
fn demote_into_a_list_sibling_works() {
    let mut m = Model::new(10);
    m.add_empty_list("<Top-Level>", "A").unwrap();
    m.add_empty_list("<Top-Level>", "B").unwrap();
    let entries = m.all_entries();
    assert!(m.demote(&entries[1].loc));
    let after = m.all_entries();
    assert_eq!(after.len(), 2);
    assert_eq!(after[0].path, "A");
    assert_eq!(after[1].path, "A/B");
}

#[test]
fn soft_delete_stages_under_the_deleted_list() {
    let mut m = sample_model();
    let entries = m.all_entries();
    assert!(!m.is_in_deleted(&entries[1].loc));
    assert!(m.move_to_deleted(&entries[1].loc));
    let after: Vec<String> = m.all_entries().iter().map(|e| e.path.clone()).collect();
    assert_eq!(after, vec![
        String::from("Rock"),
        String::from("<Deleted>"),
        String::from("<Deleted>/Song"),
    ]);
}

#[test]
fn hard_delete_needs_the_staging_list() {
    let mut m = sample_model();
    let entries = m.all_entries();
    // Not staged yet: permanent deletion is refused.
    assert!(!m.delete_permanently(&entries[1].loc));
    assert!(m.move_to_deleted(&entries[1].loc));
    let staged = m.all_entries();
    assert_eq!(staged[2].path, "<Deleted>/Song");
    assert!(m.is_in_deleted(&staged[2].loc));
    assert!(m.delete_permanently(&staged[2].loc));
    let after: Vec<String> = m.all_entries().iter().map(|e| e.path.clone()).collect();
    assert_eq!(after, vec![String::from("Rock"), String::from("<Deleted>")]);
}

#[test]
fn icon_buckets_follow_the_duration() {
    assert_eq!(icon_bucket(0), 0);
    assert_eq!(icon_bucket(149_999), 0);
    assert_eq!(icon_bucket(150_000), 1);
    assert_eq!(icon_bucket(449_999), 1);
    assert_eq!(icon_bucket(450_000), 2);
    assert_eq!(icon_bucket(2_849_999), 9);
    assert_eq!(icon_bucket(2_850_000), 10);
    assert_eq!(icon_bucket(u64::MAX), 10);
}

#[test]
fn current_has_track_needs_all_three_fields() {
    let c = Current::default();
    assert!(!c.has_track());
    let c2 = Current {
        treepath: String::from("Rock/Song"),
        track: String::from("/music/song.mp3"),
        tid: 1,
    };
    assert!(c2.has_track());
}

#[test]
fn clear_resets_everything_but_the_id_counter() {
    let mut m = sample_model();
    m.history_add_to(String::from("Rock/Song"), 1, 0);
    m.clear();
    assert!(!m.is_dirty());
    assert_eq!(m.all_entries().len(), 0);
    assert_eq!(m.history_iter().len(), 0);
    // Identifiers are not reused: the next track continues counting.
    let (rock, _) = m.add_empty_list("<Top-Level>", "Rock").unwrap();
    let (_, loc) = m.add_track(&rock, Track::new(String::from("y/New.mp3"), 0)).unwrap();
    let entries = m.all_entries();
    assert_eq!(entries[1].tid, Some(2));
    let _ = loc;
}

#[test]
fn save_then_load_round_trips_the_sample() {
    let m = sample_model();
    let bytes = m.save_to_bytes();
    // The document is gzip-compressed.
    assert_eq!(bytes[0], 0x1f);
    assert_eq!(bytes[1], 0x8b);
    let mut m2 = Model::new(10);
    m2.load_from_bytes(&bytes).unwrap();
    assert!(!m2.is_dirty());
    let paths: Vec<String> = m2.all_entries().iter().map(|e| e.path.clone()).collect();
    assert_eq!(paths, vec![String::from("Rock"), String::from("Rock/Song")]);
    let entries = m2.all_entries();
    let t = m2.track_for_item(&entries[1].loc).unwrap();
    assert_eq!(t.filename, "/music/01-Song.mp3");
    assert_eq!(t.millis, 12500);
}

#[test]
fn concrete_round_trip_keeps_position_to_the_millisecond() {
    // One top-level list "Rock" with one track at 12.5 seconds.
    let mut m = Model::new(10);
    let (rock, _) = m.add_empty_list("<Top-Level>", "Rock").unwrap();
    m.add_track(&rock, Track::new(String::from("/music/01-Song.mp3"), 12500)).unwrap();
    let bytes = m.save_to_bytes();
    let mut m2 = Model::new(10);
    m2.load_from_bytes(&bytes).unwrap();
    let entries = m2.all_entries();
    assert_eq!(entries.len(), 2);
    assert_eq!(entries[0].path, "Rock");
    assert_eq!(entries[0].tid, None);
    assert_eq!(entries[1].path, "Rock/Song");
    let t = m2.track_for_item(&entries[1].loc).unwrap();
    // 12.5 seconds, exactly.
    assert_eq!(t.millis, 12500);
}

#[test]
fn history_round_trips_in_order() {
    let mut m = sample_model();
    m.history_add_to(String::from("Rock/Song"), 1, 12500);
    m.history_add_to(String::from("Rock"), -1, 0);
    let bytes = m.save_to_bytes();
    let mut m2 = Model::new(10);
    m2.load_from_bytes(&bytes).unwrap();
    assert_eq!(m2.history_iter(), vec![String::from("Rock"), String::from("Rock/Song")]);
}

#[test]
fn malformed_magic_fails_on_line_one_and_keeps_state() {
    let mut m = sample_model();
    let before: Vec<String> = m.all_entries().iter().map(|e| e.path.clone()).collect();
    let bad = b"\x0cWRONG\t100\n".to_vec();
    let err = m.load_from_bytes(&bad).unwrap_err();
    assert_eq!(err.lino, 1);
    assert_eq!(err.kind, ParseErrorKind::NotTlm);
    let after: Vec<String> = m.all_entries().iter().map(|e| e.path.clone()).collect();
    assert_eq!(before, after);
    assert!(m.is_dirty());
}

#[test]
fn uncompressed_documents_load_too() {
    let text = "\x0cTLM\t100\n\x0cTRACKS\n\x0bRock\n/music/01-Song.mp3\t12.500\n\x0cHISTORY\nRock/Song\n";
    let mut m = Model::new(10);
    m.load_from_bytes(&text.as_bytes().to_vec()).unwrap();
    let entries = m.all_entries();
    assert_eq!(entries[1].path, "Rock/Song");
    let t = m.track_for_item(&entries[1].loc).unwrap();
    assert_eq!(t.millis, 12500);
    assert_eq!(m.history_iter(), vec![String::from("Rock/Song")]);
}

#[test]
fn track_line_without_tab_is_rejected_with_its_line() {
    let text = "\x0cTLM\t100\n\x0cTRACKS\nno-tab-here\n";
    let mut m = Model::new(10);
    let err = m.load_from_bytes(&text.as_bytes().to_vec()).unwrap_err();
    assert_eq!(err.lino, 3);
    assert_eq!(err.kind, ParseErrorKind::BadTrackLine);
}

#[test]
fn registry_leak_is_pruned_on_the_next_load() {
    // Permanent deletion keeps the registry record; loading starts fresh.
    let mut m = sample_model();
    let entries = m.all_entries();
    m.move_to_deleted(&entries[1].loc);
    let staged = m.all_entries();
    m.delete_permanently(&staged[2].loc);
    // The record is still there.
    assert!(m.track_for_item(&staged[2].loc).is_none());
    let bytes = m.save_to_bytes();
    let mut m2 = Model::new(10);
    m2.load_from_bytes(&bytes).unwrap();
    let paths: Vec<String> = m2.all_entries().iter().map(|e| e.path.clone()).collect();
    assert_eq!(paths, vec![String::from("Rock"), String::from("<Deleted>")]);
}
