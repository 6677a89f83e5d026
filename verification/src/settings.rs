//! The saved theme setting and the texts that go with the theme.

use vstd::prelude::*;

use crate::text::{chars_of, push_all, string_of, trim, trim_chars};

verus! {

/// The code of `c` with ASCII upper-case letters made lower-case.
pub open spec fn ascii_lower_code(c: char) -> u32 {
    let u = c as u32;
    if 'A' as u32 <= u <= 'Z' as u32 {
        (u + 32) as u32
    } else {
        u
    }
}

/// `a` and `b` are equal but for the case of ASCII letters, as `str::eq_ignore_ascii_case`
/// decides.
pub open spec fn eq_ignore_ascii_case(a: Seq<char>, b: Seq<char>) -> bool {
    a.len() == b.len() && forall|i: int| 0 <= i < a.len() ==> ascii_lower_code(#[trigger] a[i])
        == ascii_lower_code(b[i])
}

fn lower_code(c: char) -> (r: u32)
    ensures
        r == ascii_lower_code(c),
{
    let u = c as u32;
    if 'A' as u32 <= u && u <= 'Z' as u32 {
        u + 32
    } else {
        u
    }
}

fn chars_eq_ignore_ascii_case(a: &[char], b: &[char]) -> (r: bool)
    ensures
        r == eq_ignore_ascii_case(a@, b@),
{
    if a.len() != b.len() {
        return false;
    }
    let mut i: usize = 0;
    while i < a.len()
        invariant
            i <= a@.len() == b@.len(),
            forall|k: int| 0 <= k < i ==> ascii_lower_code(#[trigger] a@[k]) == ascii_lower_code(b@[k]),
        decreases a@.len() - i,
    {
        if lower_code(a[i]) != lower_code(b[i]) {
            return false;
        }
        i += 1;
    }
    true
}

/// The setting text that turns the dark theme on.
pub open spec fn dark_setting() -> Seq<char> {
    "dark=true"@
}

/// The settings file text for the dark theme on or off.
pub open spec fn setting_text(enabled: bool) -> Seq<char> {
    if enabled {
        "dark=true\n"@
    } else {
        "dark=false\n"@
    }
}

/// A settings file text turns the dark theme on: trimmed, it is `dark=true` in any ASCII
/// case.
pub open spec fn setting_enables_dark(text: Seq<char>) -> bool {
    eq_ignore_ascii_case(trim(text), dark_setting())
}

/// What the settings file holds for the dark theme on or off.
pub fn dark_mode_setting_text(enabled: bool) -> (r: &'static str)
    ensures
        r@ == setting_text(enabled),
{
    if enabled {
        "dark=true\n"
    } else {
        "dark=false\n"
    }
}

/// Whether a settings file holding `text` turns the dark theme on: its trimmed text is
/// `dark=true`, in any ASCII case.
pub fn parse_dark_mode_setting(text: &str) -> (r: bool)
    ensures
        r == setting_enables_dark(text@),
{
    let chars = chars_of(text);
    let trimmed = trim_chars(chars.as_slice());
    let wanted = chars_of("dark=true");
    chars_eq_ignore_ascii_case(trimmed.as_slice(), wanted.as_slice())
}

/// Where the settings are kept, under the home folder `home`.
pub fn settings_path_for_home(home: &str) -> (r: String)
    ensures
        r@ == home@ + "/.config/flossfinder-gtk/settings.txt"@,
{
    let mut path = chars_of(home);
    let rest = chars_of("/.config/flossfinder-gtk/settings.txt");
    push_all(&mut path, rest.as_slice());
    string_of(path.as_slice())
}

/// The style class of the window's root box for the dark or the light theme.
pub fn root_css_class(enabled: bool) -> (r: &'static str)
    ensures
        r@ == (if enabled {
            "dark-root"@
        } else {
            "light-root"@
        }),
{
    if enabled {
        "dark-root"
    } else {
        "light-root"
    }
}

/// The status message shown when the theme is switched.
pub fn theme_status(enabled: bool) -> (r: &'static str)
    ensures
        r@ == (if enabled {
            "Dark mode enabled."@
        } else {
            "Light mode enabled."@
        }),
{
    if enabled {
        "Dark mode enabled."
    } else {
        "Light mode enabled."
    }
}

} // verus!
