use flossfinder::settings::{
    dark_mode_setting_text, parse_dark_mode_setting, root_css_class, settings_path_for_home,
    theme_status,
};

#[test]
fn dark_mode_setting_round_trips() {
    assert!(parse_dark_mode_setting(dark_mode_setting_text(true)));
    assert!(!parse_dark_mode_setting(dark_mode_setting_text(false)));
    assert_eq!(dark_mode_setting_text(true), "dark=true\n");
    assert_eq!(dark_mode_setting_text(false), "dark=false\n");
}

#[test]
fn dark_mode_setting_ignores_case_and_spaces() {
    assert!(parse_dark_mode_setting("  DARK=TRUE \n"));
    assert!(parse_dark_mode_setting("Dark=True"));
    assert!(!parse_dark_mode_setting("dark = true"));
    assert!(!parse_dark_mode_setting(""));
    assert!(!parse_dark_mode_setting("dark=truee"));
}

#[test]
fn settings_path_is_under_home() {
    assert_eq!(settings_path_for_home("/home/ann"), "/home/ann/.config/flossfinder-gtk/settings.txt");
}

#[test]
fn theme_texts() {
    assert_eq!(root_css_class(true), "dark-root");
    assert_eq!(root_css_class(false), "light-root");
    assert_eq!(theme_status(true), "Dark mode enabled.");
    assert_eq!(theme_status(false), "Light mode enabled.");
}
