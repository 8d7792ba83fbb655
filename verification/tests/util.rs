use tlm::util::{
    canonicalize, capitalize_first, file_stem, get_bool, get_num, get_track_data_html,
    get_year_from_date, maybe_add_to_deque, TrackData,
};
use std::collections::VecDeque;

#[test]
fn canonicalize_strips_numbers_and_separators() {
    assert_eq!(canonicalize("03-Learning_to_Fly.mp3"), "Learning to Fly");
}

#[test]
fn canonicalize_more_shapes() {
    assert_eq!(canonicalize("/music/Queen/05-You_and_I.mp3"), "You and I");
    assert_eq!(canonicalize("plain.ogg"), "plain");
    assert_eq!(canonicalize("no_extension"), "no extension");
    // An all-numeric stem stays as it is rather than vanishing.
    assert_eq!(canonicalize("12345.mp3"), "12345");
    assert_eq!(canonicalize("trailing-_ .mp3"), "trailing");
    // Paths that name no file canonicalize to nothing.
    assert_eq!(canonicalize("."), "");
    assert_eq!(canonicalize(".."), "");
}

#[test]
fn file_stem_takes_the_last_component_without_extension() {
    assert_eq!(file_stem("/a/b/c.tar.gz"), "c.tar");
    assert_eq!(file_stem("song.mp3"), "song");
    assert_eq!(file_stem(".bashrc"), ".bashrc");
    assert_eq!(file_stem("dir/"), "dir");
    assert_eq!(file_stem(""), "");
}

#[test]
fn file_stem_reads_dot_components_like_a_path() {
    // A trailing current-directory component names what precedes it.
    assert_eq!(file_stem("a/."), "a");
    assert_eq!(file_stem("foo.txt/.//"), "foo");
    // The current or parent directory names no file: the whole string
    // comes back.
    assert_eq!(file_stem("."), ".");
    assert_eq!(file_stem(".."), "..");
    assert_eq!(file_stem("a/.."), "a/..");
    // Dots that are part of a name stay names.
    assert_eq!(file_stem("..."), "..");
    assert_eq!(file_stem("a/.b"), ".b");
}

#[test]
fn capitalize_first_uppercases_one_character() {
    assert_eq!(capitalize_first("linux"), "Linux");
    assert_eq!(capitalize_first(""), "");
    assert_eq!(capitalize_first("über"), "Über");
}

#[test]
fn get_bool_reads_the_usual_spellings() {
    assert!(get_bool("1"));
    assert!(get_bool("t"));
    assert!(get_bool("TRUE"));
    assert!(get_bool("yes"));
    assert!(get_bool("Y"));
    assert!(!get_bool("0"));
    assert!(!get_bool("no"));
    assert!(!get_bool(""));
    assert!(!get_bool("truely"));
    // Folding goes through the full uppercase mapping: the long s
    // uppercases to S.
    assert!(get_bool("ye\u{17f}"));
}

#[test]
fn get_num_parses_and_clamps_to_the_default() {
    assert_eq!(get_num("42", 0, 100, 7), 42);
    assert_eq!(get_num("-3", -10, 10, 7), -3);
    assert_eq!(get_num("+8", 0, 100, 7), 8);
    assert_eq!(get_num("101", 0, 100, 7), 7);
    assert_eq!(get_num("abc", 0, 100, 7), 7);
    assert_eq!(get_num("", 0, 100, 7), 7);
    assert_eq!(get_num("99999999999999999999999", 0, 100, 7), 7);
}

#[test]
fn get_year_from_date_reads_the_first_four_characters() {
    assert_eq!(get_year_from_date("1999-12-31"), 1999);
    assert_eq!(get_year_from_date("2022"), 2022);
    assert_eq!(get_year_from_date("99"), 0);
    assert_eq!(get_year_from_date("abcd-12"), 0);
}

#[test]
fn maybe_add_to_deque_moves_to_front_and_truncates() {
    let mut d: VecDeque<String> = VecDeque::new();
    assert!(maybe_add_to_deque(&mut d, String::from("a"), 3));
    assert!(maybe_add_to_deque(&mut d, String::from("b"), 3));
    assert!(maybe_add_to_deque(&mut d, String::from("c"), 3));
    assert_eq!(d, vec![String::from("c"), String::from("b"), String::from("a")]);
    // Already at the front: no change.
    assert!(!maybe_add_to_deque(&mut d, String::from("c"), 3));
    // In the middle: moves to the front without growing.
    assert!(maybe_add_to_deque(&mut d, String::from("a"), 3));
    assert_eq!(d, vec![String::from("a"), String::from("c"), String::from("b")]);
    // A new entry pushes the oldest one out.
    assert!(maybe_add_to_deque(&mut d, String::from("d"), 3));
    assert_eq!(d, vec![String::from("d"), String::from("a"), String::from("c")]);
}

#[test]
fn track_data_html_shows_the_tag_fields() {
    let data = TrackData {
        title: String::from("You and I"),
        album: String::from("A Day at the Races"),
        artist: String::from("Queen"),
        number: 5,
        year: 1976,
    };
    let html = get_track_data_html("/music/Queen/05-You_and_I.mp3", Some(&data));
    assert!(html.contains("<b>You and I</b>"));
    assert!(html.contains("A Day at the Races"));
    assert!(html.contains("(#5)"));
    assert!(html.contains("Queen"));
    assert!(html.contains("1976"));
    assert!(html.contains("\"/music/Queen/05-You_and_I.mp3\""));
}

#[test]
fn track_data_html_without_a_tag_uses_the_name() {
    let html = get_track_data_html("/music/Queen/05-You_and_I.mp3", None);
    assert!(html.contains("<b>05 You and I</b>"));
    assert!(html.contains("\"/music/Queen/05-You_and_I.mp3\""));
}
