use flossfinder::color::{load_colors, DmcColor};
use flossfinder::stash::{
    parse_quantity, parse_stash, parse_stash_entry, split_stash_line, split_trailing_x_quantity,
    stash_entry_is_sound, try_parse_stash, x_split_is_sound,
};

fn catalog() -> Vec<DmcColor> {
    load_colors(
        "code,name,hex\n310,Black,#000000\n666,Bright Red,#E31D42\n823,Navy Blue Dark,#21304F\nB5200,Snow White,#FFFFFF\n3812,Seagreen VY LT,#2FA094\n3810,Turquoise Dark,#3E8E94\n3847,Teal Green Dark,#347F8C\nBlanc,White,#FCFBF8\n",
    )
}

#[test]
fn parse_quantity_reads_marked_numbers() {
    assert_eq!(parse_quantity("2"), Some(2));
    assert_eq!(parse_quantity("x2"), Some(2));
    assert_eq!(parse_quantity("X3"), Some(3));
    assert_eq!(parse_quantity("xx7"), Some(7));
    assert_eq!(parse_quantity("qty 4"), Some(4));
    assert_eq!(parse_quantity("Qty4"), Some(4));
    assert_eq!(parse_quantity("QTY 4"), Some(4));
    assert_eq!(parse_quantity("=5"), Some(5));
    assert_eq!(parse_quantity(" :6 "), Some(6));
    assert_eq!(parse_quantity("0"), Some(0));
}

#[test]
fn parse_quantity_rejects_other_text() {
    assert_eq!(parse_quantity(""), None);
    assert_eq!(parse_quantity("   "), None);
    assert_eq!(parse_quantity("x"), None);
    assert_eq!(parse_quantity("abc"), None);
    assert_eq!(parse_quantity("+5"), None);
    assert_eq!(parse_quantity("5 x"), None);
    assert_eq!(parse_quantity("4294967295"), Some(4294967295));
    assert_eq!(parse_quantity("4294967296"), None);
}

#[test]
fn split_trailing_x_quantity_cuts_at_the_last_x() {
    assert_eq!(split_trailing_x_quantity("B5200x2"), Some(("B5200".to_string(), 2)));
    assert_eq!(split_trailing_x_quantity("310 X 3"), Some(("310".to_string(), 3)));
    assert_eq!(split_trailing_x_quantity("310X3"), Some(("310".to_string(), 3)));
    assert_eq!(split_trailing_x_quantity("x5"), None);
    assert_eq!(split_trailing_x_quantity("310"), None);
    assert_eq!(split_trailing_x_quantity("ABCx"), None);
    assert_eq!(split_trailing_x_quantity("3x2x"), None);
}

#[test]
fn x_split_soundness_is_decided() {
    assert!(x_split_is_sound("B5200x2"));
    assert!(x_split_is_sound("no marker"));
    assert!(x_split_is_sound("Éx2"));
    assert!(stash_entry_is_sound("310 x2"));
    assert!(stash_entry_is_sound(""));
}

#[test]
fn parse_stash_entry_reads_every_form() {
    assert_eq!(parse_stash_entry("310 x2"), ("310".to_string(), 2));
    assert_eq!(parse_stash_entry("666=1"), ("666".to_string(), 1));
    assert_eq!(parse_stash_entry("823:3"), ("823".to_string(), 3));
    assert_eq!(parse_stash_entry("B5200 x1"), ("B5200".to_string(), 1));
    assert_eq!(parse_stash_entry("3812"), ("3812".to_string(), 1));
    assert_eq!(parse_stash_entry("310, x2"), ("310".to_string(), 2));
    assert_eq!(parse_stash_entry("310,qty 4"), ("310".to_string(), 4));
    assert_eq!(parse_stash_entry("310,2"), ("310,2".to_string(), 1));
    assert_eq!(parse_stash_entry("B5200x2"), ("B5200".to_string(), 2));
    assert_eq!(parse_stash_entry("Snow White x2"), ("Snow White".to_string(), 2));
}

#[test]
fn parse_stash_entry_edge_cases() {
    assert_eq!(parse_stash_entry("310 x0"), ("310".to_string(), 1));
    assert_eq!(parse_stash_entry("white:2"), ("Blanc".to_string(), 2));
    assert_eq!(parse_stash_entry(""), (String::new(), 1));
    assert_eq!(parse_stash_entry("  "), (String::new(), 1));
    assert_eq!(parse_stash_entry("a=b"), ("a=b".to_string(), 1));
    assert_eq!(parse_stash_entry("a=1:2"), ("a=1".to_string(), 2));
}

#[test]
fn owned_entry_reads_back() {
    assert_eq!(parse_stash_entry("310 x3"), ("310".to_string(), 3));
    assert_eq!(parse_stash_entry("B5200 x4294967295"), ("B5200".to_string(), 4294967295));
    assert_eq!(parse_stash_entry("ecru x12"), ("ecru".to_string(), 12));
    assert_eq!(split_stash_line("B5200 x1"), vec!["B5200 x1"]);
    assert_eq!(split_stash_line("310 x3"), vec!["310 x3"]);
}

#[test]
fn split_stash_line_splits_groups_and_lists() {
    assert_eq!(split_stash_line("3812, 3810, 3847"), vec!["3812", "3810", "3847"]);
    assert_eq!(split_stash_line("310, x2"), vec!["310, x2"]);
    assert_eq!(split_stash_line("310, qty 2"), vec!["310, qty 2"]);
    assert_eq!(split_stash_line("310, =2"), vec!["310", "=2"]);
    assert_eq!(split_stash_line("310, 2"), vec!["310", "2"]);
    assert_eq!(split_stash_line("3812, 3810"), vec!["3812", "3810"]);
    assert_eq!(split_stash_line("310 x2; 666=1|823"), vec!["310 x2", "666=1", "823"]);
    assert_eq!(split_stash_line(" ; , |"), vec![","]);
    assert!(split_stash_line("").is_empty());
    assert_eq!(split_stash_line("a,,b"), vec!["a", "b"]);
}

#[test]
fn parse_stash_reads_plain_codes_as_one() {
    let colors = catalog();
    let r = parse_stash(&colors, "310\n666\n823\n");
    assert_eq!(r.quantities.len(), 3);
    assert_eq!(r.quantities.get(&0), Some(&1));
    assert_eq!(r.quantities.get(&1), Some(&1));
    assert_eq!(r.quantities.get(&2), Some(&1));
    assert_eq!(r.total_skeins, 3);
    assert!(r.unknown_codes.is_empty());
}

#[test]
fn parse_stash_reads_quantities() {
    let colors = catalog();
    let r = parse_stash(&colors, "310 x2\n666=1\n823:3\nB5200 x1\n3812, 3810, 3847\n");
    assert_eq!(r.quantities.get(&0), Some(&2));
    assert_eq!(r.quantities.get(&1), Some(&1));
    assert_eq!(r.quantities.get(&2), Some(&3));
    assert_eq!(r.quantities.get(&3), Some(&1));
    assert_eq!(r.quantities.get(&4), Some(&1));
    assert_eq!(r.quantities.get(&5), Some(&1));
    assert_eq!(r.quantities.get(&6), Some(&1));
    assert_eq!(r.total_skeins, 10);
    assert_eq!(r.indexes.len(), 7);
    assert_eq!(
        r.recognized_codes,
        vec!["310 x2", "3810 x1", "3812 x1", "3847 x1", "666 x1", "823 x3", "B5200 x1"]
    );
    assert!(r.unknown_codes.is_empty());
}

#[test]
fn parse_stash_adds_repeats_and_keeps_unknown_entries() {
    let colors = catalog();
    let r = parse_stash(&colors, "310 # my black\nfoo\n  310 x3 \nzzz:2\n# only a comment\nwhite x2\n");
    assert_eq!(r.quantities.get(&0), Some(&4));
    assert_eq!(r.quantities.get(&7), Some(&2));
    assert_eq!(r.quantities.len(), 2);
    assert_eq!(r.total_skeins, 6);
    assert_eq!(r.recognized_codes, vec!["310 x4", "Blanc x2"]);
    assert_eq!(r.unknown_codes, vec!["foo", "zzz:2"]);
    assert!(r.indexes.contains(&0) && r.indexes.contains(&7));
}

#[test]
fn parse_stash_caps_a_colour_at_the_largest_quantity() {
    let colors = catalog();
    let r = parse_stash(&colors, "310 x4294967295\n310 x5\n");
    assert_eq!(r.quantities.get(&0), Some(&4294967295));
    assert_eq!(r.total_skeins, 4294967295);
}

#[test]
fn try_parse_stash_refuses_a_total_that_overflows() {
    let colors = catalog();
    assert!(try_parse_stash(&colors, "310 x4294967295\n666 x1\n").is_none());
    assert!(try_parse_stash(&colors, "310 x4294967294\n666 x1\n").is_some());
}

#[test]
fn parse_stash_of_empty_text_is_empty() {
    let colors = catalog();
    let r = parse_stash(&colors, "");
    assert!(r.indexes.is_empty());
    assert!(r.quantities.is_empty());
    assert!(r.recognized_codes.is_empty());
    assert!(r.unknown_codes.is_empty());
    assert_eq!(r.total_skeins, 0);
}

#[test]
fn stash_colours_are_listed_once_with_at_least_one() {
    let colors = catalog();
    let r = parse_stash(&colors, "310 x0; 666\n310\n666=0\n");
    assert_eq!(r.recognized_codes.len(), r.indexes.len());
    assert!(r.quantities.values().all(|q| *q >= 1));
    assert_eq!(r.recognized_codes, vec!["310 x2", "666 x2"]);
}

#[test]
fn parse_stash_counts_each_code_of_a_two_code_list() {
    let colors: Vec<DmcColor> = ["3812", "3810"]
        .iter()
        .map(|c| DmcColor { code: c.to_string(), name: String::new(), hex: String::new(), rgb: (0, 0, 0) })
        .collect();
    let r = parse_stash(&colors, "3812, 3810");
    let want_indexes: std::collections::HashSet<usize> = [0usize, 1].into_iter().collect();
    assert_eq!(r.indexes, want_indexes);
    assert_eq!(r.quantities.get(&0), Some(&1));
    assert_eq!(r.quantities.get(&1), Some(&1));
    assert_eq!(r.quantities.len(), 2);
    assert_eq!(r.total_skeins, 2);
    assert_eq!(r.recognized_codes, vec!["3810 x1", "3812 x1"]);
    assert!(r.unknown_codes.is_empty());
}

#[test]
fn parse_stash_reads_a_marked_quantity_after_a_comma() {
    let colors = catalog();
    let r = parse_stash(&colors, "310, x2\n666, QTY 3\n");
    assert_eq!(r.quantities.get(&0), Some(&2));
    assert_eq!(r.quantities.get(&1), Some(&3));
    assert_eq!(r.total_skeins, 5);
    assert!(r.unknown_codes.is_empty());
}

#[test]
fn owned_entry_with_no_quantity_reads_back_as_one() {
    assert_eq!(parse_stash_entry("310 x0"), ("310".to_string(), 1));
    assert_eq!(parse_stash_entry("B5200 x0"), ("B5200".to_string(), 1));
}

#[test]
fn parse_quantity_reads_back_any_decimal() {
    for n in [0u32, 1, 7, 42, 310, 65535, 4294967295] {
        assert_eq!(parse_quantity(&n.to_string()), Some(n));
        assert_eq!(parse_quantity(&format!("x{n}")), Some(n));
        assert_eq!(parse_quantity(&format!("qty {n}")), Some(n));
    }
}

#[test]
fn stash_colours_are_catalogue_positions() {
    let colors = catalog();
    let r = parse_stash(&colors, "310 x2\nblanc\n3847; 3812 x4\nnope\n");
    assert!(!r.quantities.is_empty());
    assert!(r.quantities.keys().all(|i| *i < colors.len()));
    assert!(r.indexes.iter().all(|i| *i < colors.len()));
}

#[test]
fn two_stash_texts_joined_read_as_both_together() {
    let colors = catalog();
    let a = "310 x2\nfoo\n666\n";
    let b = "310 x3\r\nbar\n3810";
    let ra = parse_stash(&colors, a);
    let rb = parse_stash(&colors, b);
    let r = parse_stash(&colors, &format!("{a}\n{b}"));
    let mut want = ra.indexes.clone();
    want.extend(rb.indexes.iter().copied());
    assert_eq!(r.indexes, want);
    for i in &r.indexes {
        let qa = ra.quantities.get(i).copied().unwrap_or(0);
        let qb = rb.quantities.get(i).copied().unwrap_or(0);
        assert_eq!(r.quantities.get(i).copied(), Some(qa.saturating_add(qb)));
    }
    assert_eq!(r.quantities.get(&0), Some(&5));
    let mut unknown = ra.unknown_codes.clone();
    unknown.extend(rb.unknown_codes.iter().cloned());
    unknown.sort();
    assert_eq!(r.unknown_codes, unknown);
    assert_eq!(r.unknown_codes, vec!["bar", "foo"]);
}

#[test]
fn a_trailing_carriage_return_does_not_change_a_joined_stash() {
    let colors = catalog();
    let r = parse_stash(&colors, "310 x2\r\n666");
    assert_eq!(r.quantities.get(&0), Some(&2));
    assert_eq!(r.quantities.get(&1), Some(&1));
    assert!(r.unknown_codes.is_empty());
}
