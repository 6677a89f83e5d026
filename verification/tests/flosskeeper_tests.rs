use flossfinder::color::load_colors;
use flossfinder::flosskeeper::{flosskeeper_path_for_home, flosskeeper_stash_text};
use flossfinder::stash::parse_stash;

#[test]
fn flosskeeper_lines_become_stash_lines() {
    let text = flosskeeper_stash_text("# FlossKeeper\n310\t2\t1\n666 0 0\nB5200 1 x\n823 +4 1\n  \n310 1\n");
    assert_eq!(text, Ok("310 x3\nB5200 x1\n823 x5\n".to_string()));
}

#[test]
fn flosskeeper_caps_the_sum() {
    let text = flosskeeper_stash_text("310 4294967295 4294967295\n");
    assert_eq!(text, Ok("310 x4294967295\n".to_string()));
}

#[test]
fn flosskeeper_without_owned_colours_is_an_error() {
    let msg = "No owned colours found in the selected FlossKeeper stash file.".to_string();
    assert_eq!(flosskeeper_stash_text(""), Err(msg.clone()));
    assert_eq!(flosskeeper_stash_text("# nothing\n310 0 0\n666 a b\n"), Err(msg));
}

#[test]
fn flosskeeper_text_reads_back_as_a_stash() {
    let colors = load_colors("code,name,hex\n310,Black,#000000\n666,Bright Red,#E31D42\n");
    let text = flosskeeper_stash_text("310 2 1\n666 0 4\n").unwrap();
    let stash = parse_stash(&colors, &text);
    assert_eq!(stash.quantities.get(&0), Some(&3));
    assert_eq!(stash.quantities.get(&1), Some(&4));
    assert_eq!(stash.total_skeins, 7);
}

#[test]
fn flosskeeper_path_is_under_home() {
    assert_eq!(
        flosskeeper_path_for_home("/home/ann"),
        "/home/ann/FlossKeeperSync/flosskeeper_collection.tsv"
    );
}
