use flossfinder::color::{
    catalog_is_sliceable, find_color_index, hex_is_sliceable, hex_to_rgb, load_colors, DmcColor,
};

fn color(code: &str, name: &str, hex: &str, rgb: (u8, u8, u8)) -> DmcColor {
    DmcColor { code: code.to_string(), name: name.to_string(), hex: hex.to_string(), rgb }
}

#[test]
fn hex_to_rgb_reads_six_digits() {
    assert_eq!(hex_to_rgb("#FF0080"), Some((255, 0, 128)));
    assert_eq!(hex_to_rgb("#E31D42"), Some((227, 29, 66)));
    assert_eq!(hex_to_rgb("ff0080"), Some((255, 0, 128)));
    assert_eq!(hex_to_rgb("##a1b2c3"), Some((161, 178, 195)));
    assert_eq!(hex_to_rgb(" #123456 "), Some((18, 52, 86)));
}

#[test]
fn hex_to_rgb_rejects_malformed_text() {
    assert_eq!(hex_to_rgb("#12345"), None);
    assert_eq!(hex_to_rgb("#1234567"), None);
    assert_eq!(hex_to_rgb("#GG0000"), None);
    assert_eq!(hex_to_rgb(""), None);
    assert_eq!(hex_to_rgb("#ééé"), None);
}

#[test]
fn hex_to_rgb_accepts_a_plus_sign_per_pair() {
    assert_eq!(hex_to_rgb("+f+f+f"), Some((15, 15, 15)));
    assert_eq!(hex_to_rgb("+"), None);
}

#[test]
fn hex_is_sliceable_detects_split_characters() {
    assert!(hex_is_sliceable("#FFFFFF"));
    assert!(hex_is_sliceable("#ééé"));
    assert!(hex_is_sliceable("short"));
    assert!(!hex_is_sliceable("aé111"));
    assert!(!hex_is_sliceable("#1é111"));
}

const CSV: &str = "code,name,hex\n310,Black,#000000\n\n666 , Bright Red , #E31D42\nbad line\nB5200,Snow White,#FFFFFF\nX,Nothing,#12\n3865,Winter White,#F9F7F1\n";

#[test]
fn load_colors_reads_rows_after_the_header() {
    let colors = load_colors(CSV);
    assert_eq!(colors.len(), 4);
    assert_eq!(colors[0].code, "310");
    assert_eq!(colors[0].name, "Black");
    assert_eq!(colors[0].hex, "#000000");
    assert_eq!(colors[0].rgb, (0, 0, 0));
    assert_eq!(colors[1].code, "666");
    assert_eq!(colors[1].name, "Bright Red");
    assert_eq!(colors[1].rgb, (227, 29, 66));
    assert_eq!(colors[2].code, "B5200");
    assert_eq!(colors[3].code, "3865");
    assert_eq!(colors[3].rgb, (249, 247, 241));
}

#[test]
fn load_colors_skips_the_header_even_when_it_is_a_row() {
    let colors = load_colors("310,Black,#000000\r\n666,Red,#FF0000\r\n");
    assert_eq!(colors.len(), 1);
    assert_eq!(colors[0].code, "666");
    assert_eq!(colors[0].hex, "#FF0000");
    assert!(load_colors("").is_empty());
}

#[test]
fn catalog_is_sliceable_checks_every_row() {
    assert!(catalog_is_sliceable(CSV));
    assert!(catalog_is_sliceable("aé111,x,aé111\n"));
    assert!(!catalog_is_sliceable("header\n1,x,aé111\n"));
}

#[test]
fn find_color_index_compares_normalised_codes() {
    let colors = vec![
        color("310", "Black", "#000000", (0, 0, 0)),
        color("B5200", "Snow White", "#FFFFFF", (255, 255, 255)),
        color("b 5200", "Duplicate", "#FFFFFE", (255, 255, 254)),
    ];
    assert_eq!(find_color_index(&colors, "b5200"), Some(1));
    assert_eq!(find_color_index(&colors, " 310 "), Some(0));
    assert_eq!(find_color_index(&colors, "999"), None);
    assert_eq!(find_color_index(&colors, ""), None);
    assert_eq!(find_color_index(&[], "310"), None);
}

#[test]
fn every_colour_is_found_by_its_own_code() {
    let colors = load_colors(CSV);
    for (i, c) in colors.iter().enumerate() {
        let found = find_color_index(&colors, &c.code).unwrap();
        assert!(found <= i);
    }
}

#[test]
fn hex_to_rgb_reads_back_a_formatted_colour() {
    for rgb in [(0u8, 0u8, 0u8), (255, 255, 255), (18, 52, 86), (227, 29, 66), (1, 160, 15)] {
        let (r, g, b) = rgb;
        assert_eq!(hex_to_rgb(&format!("#{r:02X}{g:02X}{b:02X}")), Some(rgb));
        assert_eq!(hex_to_rgb(&format!("{r:02x}{g:02x}{b:02x}")), Some(rgb));
    }
}
