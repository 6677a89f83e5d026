use flossfinder::code::{extract_code, normalize_code};

#[test]
fn normalize_code_trims_uppercases_and_drops_spaces() {
    assert_eq!(normalize_code(" b 5200 "), "B5200");
    assert_eq!(normalize_code("Blanc"), "BLANC");
    assert_eq!(normalize_code("\t310\n"), "310");
    assert_eq!(normalize_code(""), "");
}

#[test]
fn extract_code_maps_white_names() {
    assert_eq!(extract_code("white"), "Blanc");
    assert_eq!(extract_code("  White  "), "Blanc");
    assert_eq!(extract_code("W H I T E"), "Blanc");
}

#[test]
fn extract_code_maps_off_white_names() {
    assert_eq!(extract_code("Off White"), "Ecru");
    assert_eq!(extract_code("off-white"), "Ecru");
    assert_eq!(extract_code("offwhite"), "Ecru");
    assert_eq!(extract_code("cream"), "Ecru");
}

#[test]
fn extract_code_cuts_the_colour_name() {
    assert_eq!(extract_code("310 - Black"), "310");
    assert_eq!(extract_code("  823  -  Navy Blue Dark"), "823");
    assert_eq!(extract_code("B5200 - Snow White - extra"), "B5200");
}

#[test]
fn extract_code_keeps_other_codes() {
    assert_eq!(extract_code("  823  "), "823");
    assert_eq!(extract_code("b5200"), "b5200");
    assert_eq!(extract_code("310-Black"), "310-Black");
    assert_eq!(extract_code(""), "");
    assert_eq!(extract_code("   "), "");
}

#[test]
fn extract_code_of_its_own_result_changes_nothing() {
    for s in [
        "310 - Black",
        "  White  ",
        "cream",
        "Off White",
        "b5200",
        "  823  -  Navy Blue Dark",
        "310-Black",
        "a - b - c",
        "",
        "Blanc",
        "Ecru",
    ] {
        let once = extract_code(s);
        assert_eq!(extract_code(&once), once, "{s:?}");
    }
}

#[test]
fn normalize_code_of_its_own_result_changes_nothing() {
    for s in [" b 5200 ", "Blanc", "\t310\n", "", "off - white", "  x\ty  "] {
        let once = normalize_code(s);
        assert_eq!(normalize_code(&once), once, "{s:?}");
        assert!(!once.contains(' '));
    }
}

#[test]
fn normalize_code_ignores_spaces_and_case() {
    for s in [" b 5200 ", "Blanc", "Off White", "ecru", "3 8 1 2"] {
        let n = normalize_code(s);
        assert_eq!(normalize_code(&s.replace(' ', "")), n, "{s:?}");
        assert_eq!(normalize_code(&s.to_ascii_lowercase()), n, "{s:?}");
        assert_eq!(normalize_code(&s.to_ascii_uppercase()), n, "{s:?}");
    }
    assert_eq!(normalize_code("o f f w h i t e"), "OFFWHITE");
}
