use flossfinder::color::load_colors;
use flossfinder::stash_search::{begin_stash_search, stash_search_view, StashSearchStep};

const CSV: &str = "code,name,hex\n310,Black,#000000\n666,Bright Red,#E31D42\nB5200,Snow White,#FFFFFF\n3865,Winter White,#F9F7F1\n";

fn stop_texts(step: StashSearchStep) -> (String, String) {
    match step {
        StashSearchStep::Stop { status, target_label } => (status, target_label),
        _ => panic!("expected the search to stop"),
    }
}

#[test]
fn stash_search_without_a_colour_stops() {
    let colors = load_colors(CSV);
    let (status, target_label) = stop_texts(begin_stash_search(&colors, " ", 10, false, ""));
    assert_eq!(status, "Type a DMC colour first.");
    assert_eq!(target_label, "Original colour: none selected");
}

#[test]
fn stash_search_for_an_unknown_colour_stops() {
    let colors = load_colors(CSV);
    let (status, target_label) = stop_texts(begin_stash_search(&colors, "999", 10, false, ""));
    assert_eq!(status, "I could not find DMC colour: 999");
    assert_eq!(target_label, "Original colour: none selected");
}

#[test]
fn stash_only_search_with_an_empty_stash_stops() {
    let colors = load_colors(CSV);
    let (status, target_label) = stop_texts(begin_stash_search(&colors, "310", 10, true, "foo\n"));
    assert_eq!(status, "My Stash only is enabled, but no stash colours were recognized.");
    assert_eq!(target_label, "Original colour: none selected");
}

#[test]
fn stash_search_with_an_unreadable_stash_says_so() {
    let colors = load_colors(CSV);
    let step = begin_stash_search(&colors, "310", 10, false, "310 x4294967295\n666 x1\n");
    assert!(matches!(step, StashSearchStep::Unreadable));
}

#[test]
fn stash_search_keeps_the_count_between_three_and_twenty_five() {
    let colors = load_colors(CSV);
    for (spin, want) in [(40, 25usize), (1, 3), (-5, 3), (12, 12)] {
        match begin_stash_search(&colors, "310", spin, false, "") {
            StashSearchStep::Ready { target_index, match_count, .. } => {
                assert_eq!(target_index, 0);
                assert_eq!(match_count, want);
            },
            _ => panic!("expected a ready search"),
        }
    }
}

#[test]
fn stash_only_view_offers_stash_colours() {
    let colors = load_colors(CSV);
    let step = begin_stash_search(&colors, "b5200", 10, true, "310 x2\nfoo\n");
    let (t, n, stash) = match step {
        StashSearchStep::Ready { target_index, match_count, stash } => (target_index, match_count, stash),
        _ => panic!("expected a ready search"),
    };
    let view = stash_search_view(&colors, t, n, true, &stash, &[100, 50, 0, 3]);
    assert_eq!(view.matches.iter().map(|m| m.color_index).collect::<Vec<_>>(), vec![0]);
    assert_eq!(view.owned, vec!["x2"]);
    assert_eq!(
        view.status,
        "Showing closest stash substitutes for DMC B5200 using 1 stash colours / 2 total skeins. 1 unknown stash entries ignored."
    );
    assert_eq!(view.target_label, "Original colour: DMC B5200 — Snow White — #FFFFFF");
}

#[test]
fn full_list_view_marks_owned_colours() {
    let colors = load_colors(CSV);
    let step = begin_stash_search(&colors, "B5200", 10, false, "310 x2\n");
    let (t, n, stash) = match step {
        StashSearchStep::Ready { target_index, match_count, stash } => (target_index, match_count, stash),
        _ => panic!("expected a ready search"),
    };
    let view = stash_search_view(&colors, t, n, false, &stash, &[100, 50, 0, 3]);
    assert_eq!(view.matches.iter().map(|m| m.color_index).collect::<Vec<_>>(), vec![3, 1, 0]);
    assert_eq!(view.owned, vec!["-", "-", "x2"]);
    assert_eq!(view.status, "Showing closest substitutes for DMC B5200 using the full DMC list.");
}
