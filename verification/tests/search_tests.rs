use flossfinder::color::load_colors;
use flossfinder::search::{color_line_text, SubstituteApp};

const CSV: &str = "code,name,hex\n310,Black,#000000\n666,Bright Red,#E31D42\nB5200,Snow White,#FFFFFF\n3865,Winter White,#F9F7F1\n";

#[test]
fn new_app_waits_for_a_colour() {
    let app = SubstituteApp::new(load_colors(CSV));
    assert_eq!(app.colors.len(), 4);
    assert_eq!(app.input_code, "");
    assert_eq!(app.match_count, 10);
    assert_eq!(app.target_index, None);
    assert!(app.matches.is_empty());
    assert_eq!(app.selected_match, None);
    assert_eq!(app.status, "Enter a DMC number like 310, 823, B5200, Blanc, or Ecru.");
}

#[test]
fn search_without_a_colour_asks_for_one() {
    let mut app = SubstituteApp::new(load_colors(CSV));
    app.input_code = "   ".to_string();
    assert_eq!(app.begin_search(), None);
    assert_eq!(app.status, "Type a DMC colour first, like 310, 823, B5200, Blanc, White, or Ecru.");
}

#[test]
fn search_for_an_unknown_colour_clears_the_result() {
    let mut app = SubstituteApp::new(load_colors(CSV));
    app.input_code = "b5200".to_string();
    let t = app.begin_search().unwrap();
    app.finish_search(t, &[100, 50, 0, 3]);
    app.input_code = "white".to_string();
    assert_eq!(app.begin_search(), None);
    assert_eq!(app.status, "I could not find DMC colour: Blanc");
    assert_eq!(app.target_index, None);
    assert!(app.matches.is_empty());
    assert_eq!(app.selected_match, None);
}

#[test]
fn search_lists_the_closest_substitutes() {
    let mut app = SubstituteApp::new(load_colors(CSV));
    app.input_code = "b5200 - Snow White".to_string();
    let t = app.begin_search().unwrap();
    assert_eq!(t, 2);
    app.finish_search(t, &[100, 50, 0, 3]);
    assert_eq!(app.target_index, Some(2));
    assert_eq!(app.matches.iter().map(|m| m.color_index).collect::<Vec<_>>(), vec![3, 1, 0]);
    assert_eq!(app.selected_match, Some(0));
    assert_eq!(app.status, "Showing closest substitutes for DMC B5200 — Snow White — #FFFFFF");
    assert_eq!(app.selected_color_index(), Some(3));
}

#[test]
fn search_keeps_at_least_three_substitutes() {
    let mut app = SubstituteApp::new(load_colors(CSV));
    app.match_count = 1;
    app.input_code = "310".to_string();
    let t = app.begin_search().unwrap();
    app.finish_search(t, &[0, 7, 9, 8]);
    assert_eq!(app.matches.iter().map(|m| m.color_index).collect::<Vec<_>>(), vec![1, 3, 2]);
    app.match_count = 2;
    app.finish_search(t, &[0, 7, 9, 8]);
    assert_eq!(app.matches.len(), 3);
}

#[test]
fn copying_a_substitute_selects_it() {
    let mut app = SubstituteApp::new(load_colors(CSV));
    app.input_code = "B5200".to_string();
    let t = app.begin_search().unwrap();
    app.finish_search(t, &[100, 50, 0, 3]);
    let code = app.copy_match(1);
    assert_eq!(code, "666");
    assert_eq!(app.status, "Copied DMC 666 to the clipboard.");
    assert_eq!(app.selected_match, Some(1));
    assert_eq!(app.selected_color_index(), Some(1));
    app.select_match(2);
    assert_eq!(app.selected_color_index(), Some(0));
    app.select_match(7);
    assert_eq!(app.selected_color_index(), None);
}

#[test]
fn colour_line_names_code_name_and_hex() {
    let colors = load_colors(CSV);
    assert_eq!(color_line_text(&colors[0]), "DMC 310 — Black — #000000");
}
