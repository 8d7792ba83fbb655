use tlm::model::{Model, Track};

fn tree() -> Model {
    let mut m = Model::new(10);
    m.add_empty_list("<Top-Level>", "Rock").unwrap();
    m.add_track(&String::from("Rock"), Track::new(String::from("a/01-Learning_to_Fly.mp3"), 0))
        .unwrap();
    m.add_track(&String::from("Rock"), Track::new(String::from("a/02-Time.mp3"), 0)).unwrap();
    m.add_empty_list("<Top-Level>", "Jazz").unwrap();
    m.add_track(&String::from("Jazz"), Track::new(String::from("b/03-So_What.mp3"), 0)).unwrap();
    m
}

#[test]
fn find_is_case_insensitive_and_in_document_order() {
    let m = tree();
    let (path, _) = m.find("LEARNING", None).unwrap();
    assert_eq!(path, "Rock/Learning to Fly");
    let (path2, _) = m.find("o", None).unwrap();
    // "Rock" is the first label holding an "o".
    assert_eq!(path2, "Rock");
}

#[test]
fn find_continues_after_the_given_node_and_wraps() {
    let m = tree();
    let (_, rock_loc) = m.find("Rock", None).unwrap();
    // Starting after "Rock" itself, the next "o" label is deeper down.
    let (path, loc) = m.find("o", Some(&rock_loc)).unwrap();
    assert_eq!(path, "Rock/Learning to Fly");
    // From the last match of "What", the search wraps back to the top.
    let (what_path, what_loc) = m.find("what", None).unwrap();
    assert_eq!(what_path, "Jazz/So What");
    let (wrapped, _) = m.find("rock", Some(&what_loc)).unwrap();
    assert_eq!(wrapped, "Rock");
    let _ = loc;
}

#[test]
fn find_reports_nothing_for_absent_text() {
    let m = tree();
    assert!(m.find("polka", None).is_none());
}
