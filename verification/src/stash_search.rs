//! The search screen with a stash: substitutes found among the colours the user owns.

use std::collections::{HashMap, HashSet};
use vstd::prelude::*;

use crate::code::{extract_code, extracted, normalized};
use crate::color::{find_color_index, first_with_code, records, DmcColor};
use crate::matching::{best_matches, is_best_ranking, MatchResult};
use crate::search::{color_line, color_line_text};
use crate::stash::{stash_entries, stash_parse_sound, stash_total, tally, try_parse_stash, StashParseResult};
use crate::text::{chars_of, decimal, push_decimal, push_str, string_of};

verus! {

broadcast use vstd::std_specs::hash::group_hash_axioms;

/// The target-colour line when no colour is shown.
pub open spec fn none_selected() -> Seq<char> {
    "Original colour: none selected"@
}

/// How a stash search goes on after the typed colour and the stash text are read.
pub enum StashSearchStep {
    /// The search ends here, with these texts for the status line and the
    /// target-colour line.
    Stop { status: String, target_label: String },
    /// The stash text cannot be read (see `try_parse_stash`).
    Unreadable,
    /// The colour was found: its substitutes can be ranked once their distances are known.
    Ready { target_index: usize, match_count: usize, stash: StashParseResult },
}

/// The number of substitutes that a spin-button value asks for, between 3 and 25.
pub open spec fn spin_count(v: int) -> int {
    if v < 3 {
        3
    } else if v > 25 {
        25
    } else {
        v
    }
}

/// Reads the typed colour and the stash for a search: stops with a message where nothing is
/// typed, the colour is not in the catalogue, or only stash colours are wanted and the stash
/// names none; otherwise the colour found, the number of substitutes (the spin value kept
/// between 3 and 25) and the stash read.
pub fn begin_stash_search(
    colors: &[DmcColor],
    input: &str,
    spin_value: i32,
    stash_only: bool,
    stash_text: &str,
) -> (r: StashSearchStep)
    ensures
        ({
            let rs = records(colors@);
            let entered = extracted(input@);
            let found = first_with_code(rs, normalized(entered));
            if entered.len() == 0 {
                r matches StashSearchStep::Stop { status, target_label } && status@
                    == "Type a DMC colour first."@ && target_label@ == none_selected()
            } else if found is None {
                r matches StashSearchStep::Stop { status, target_label } && status@
                    == "I could not find DMC colour: "@ + entered && target_label@ == none_selected()
            } else if !stash_parse_sound(rs, stash_text@) {
                r is Unreadable
            } else if stash_only && tally(rs, stash_entries(stash_text@)).quantities.dom().len()
                == 0 {
                r matches StashSearchStep::Stop { status, target_label } && status@
                    == "My Stash only is enabled, but no stash colours were recognized."@
                    && target_label@ == none_selected()
            } else {
                r matches StashSearchStep::Ready { target_index, match_count, stash } && found
                    == Some(target_index as int) && match_count == spin_count(spin_value as int)
                    && stash.reads(rs, stash_text@)
            }
        }),
{
    let entered = extract_code(input);
    let entered_chars = chars_of(entered.as_str());
    if entered_chars.len() == 0 {
        return StashSearchStep::Stop {
            status: "Type a DMC colour first.".to_string(),
            target_label: "Original colour: none selected".to_string(),
        };
    }
    let match_count: usize = if spin_value < 3 {
        3
    } else if spin_value > 25 {
        25
    } else {
        spin_value as usize
    };
    let target_index = match find_color_index(colors, entered.as_str()) {
        Some(t) => t,
        None => {
            let mut s: Vec<char> = Vec::new();
            push_str(&mut s, "I could not find DMC colour: ");
            push_str(&mut s, entered.as_str());
            return StashSearchStep::Stop {
                status: string_of(s.as_slice()),
                target_label: "Original colour: none selected".to_string(),
            };
        },
    };
    let stash = match try_parse_stash(colors, stash_text) {
        Some(s) => s,
        None => return StashSearchStep::Unreadable,
    };
    if stash_only && stash.indexes.is_empty() {
        return StashSearchStep::Stop {
            status: "My Stash only is enabled, but no stash colours were recognized.".to_string(),
            target_label: "Original colour: none selected".to_string(),
        };
    }
    StashSearchStep::Ready { target_index, match_count, stash }
}

/// What a stash search shows: the status line, the target-colour line, the substitutes,
/// and for each substitute how many the stash holds.
pub struct StashSearchView {
    pub status: String,
    pub target_label: String,
    pub matches: Vec<MatchResult>,
    pub owned: Vec<String>,
}

/// The note on unknown stash entries: none, or how many were ignored.
pub open spec fn unknown_note(n: nat) -> Seq<char> {
    if n == 0 {
        Seq::empty()
    } else {
        " "@ + decimal(n) + " unknown stash entries ignored."@
    }
}

/// How many of a colour the stash holds: `xN`, or `-` for none.
pub open spec fn owned_label(q: Map<usize, u32>, index: usize) -> Seq<char> {
    if q.contains_key(index) {
        "x"@ + decimal(q[index] as nat)
    } else {
        "-"@
    }
}

/// The substitutes for colour `target_index` and the texts shown with them. Only stash
/// colours are offered where `stash_only` is set; `distances[i]` is the distance key of colour
/// `i` from the target.
pub fn stash_search_view(
    colors: &[DmcColor],
    target_index: usize,
    match_count: usize,
    stash_only: bool,
    stash: &StashParseResult,
    distances: &[u64],
) -> (v: StashSearchView)
    requires
        target_index < colors@.len(),
        distances@.len() == colors@.len(),
    ensures
        is_best_ranking(
            records(colors@),
            target_index as int,
            if stash_only {
                Some(stash.indexes@)
            } else {
                None
            },
            distances@,
            match_count as int,
            v.matches@,
        ),
        v.target_label@ == "Original colour: "@ + color_line(colors@[target_index as int]@),
        v.status@ == (if stash_only {
            "Showing closest stash substitutes for DMC "@ + colors@[target_index as int].code@
                + " using "@ + decimal(stash.recognized_codes@.len()) + " stash colours / "@
                + decimal(stash.total_skeins as nat) + " total skeins."@ + unknown_note(
                stash.unknown_codes@.len(),
            )
        } else {
            "Showing closest substitutes for DMC "@ + colors@[target_index as int].code@
                + " using the full DMC list."@ + unknown_note(stash.unknown_codes@.len())
        }),
        v.owned@.len() == v.matches@.len(),
        forall|k: int|
            0 <= k < v.matches@.len() ==> (#[trigger] v.owned@[k])@ == owned_label(
                stash.quantities@,
                v.matches@[k].color_index,
            ),
{
    let allowed: Option<&HashSet<usize>> = if stash_only {
        Some(&stash.indexes)
    } else {
        None
    };
    let matches = best_matches(colors, target_index, match_count, allowed, distances);
    let target = &colors[target_index];
    let mut note: Vec<char> = Vec::new();
    if stash.unknown_codes.len() > 0 {
        push_str(&mut note, " ");
        push_decimal(&mut note, stash.unknown_codes.len() as u64);
        push_str(&mut note, " unknown stash entries ignored.");
    }
    assert(note@ =~= unknown_note(stash.unknown_codes@.len()));
    let mut status: Vec<char> = Vec::new();
    if stash_only {
        push_str(&mut status, "Showing closest stash substitutes for DMC ");
        push_str(&mut status, target.code.as_str());
        push_str(&mut status, " using ");
        push_decimal(&mut status, stash.recognized_codes.len() as u64);
        push_str(&mut status, " stash colours / ");
        push_decimal(&mut status, stash.total_skeins as u64);
        push_str(&mut status, " total skeins.");
    } else {
        push_str(&mut status, "Showing closest substitutes for DMC ");
        push_str(&mut status, target.code.as_str());
        push_str(&mut status, " using the full DMC list.");
    }
    crate::text::push_all(&mut status, note.as_slice());
    let mut target_label: Vec<char> = Vec::new();
    push_str(&mut target_label, "Original colour: ");
    let line = color_line_text(target);
    push_str(&mut target_label, line.as_str());
    let mut owned: Vec<String> = Vec::new();
    let mut k: usize = 0;
    while k < matches.len()
        invariant
            k <= matches@.len(),
            owned@.len() == k,
            forall|j: int|
                0 <= j < k ==> (#[trigger] owned@[j])@ == owned_label(
                    stash.quantities@,
                    matches@[j].color_index,
                ),
        decreases matches@.len() - k,
    {
        let index = matches[k].color_index;
        let label = match stash.quantities.get(&index) {
            Some(q) => {
                let mut t: Vec<char> = Vec::new();
                push_str(&mut t, "x");
                push_decimal(&mut t, *q as u64);
                string_of(t.as_slice())
            },
            None => "-".to_string(),
        };
        owned.push(label);
        k += 1;
    }
    StashSearchView {
        status: string_of(status.as_slice()),
        target_label: string_of(target_label.as_slice()),
        matches,
        owned,
    }
}

} // verus!
