//! The search screen: what a search for a typed colour shows, and the choice of a substitute.

use vstd::prelude::*;

use crate::code::{extract_code, extracted, normalized};
use crate::color::{find_color_index, first_with_code, records, ColorRecord, DmcColor};
use crate::matching::{best_matches, is_best_ranking, MatchResult};
use crate::text::{chars_of, push_str, string_of};

verus! {

/// The fewest and the most substitutes a search lists.
pub open spec fn clamp_count(n: int) -> int {
    if n < 3 {
        3
    } else if n > 25 {
        25
    } else {
        n
    }
}

/// The status shown before any search.
pub open spec fn welcome_status() -> Seq<char> {
    "Enter a DMC number like 310, 823, B5200, Blanc, or Ecru."@
}

/// The status shown for a search without a colour.
pub open spec fn empty_entry_status() -> Seq<char> {
    "Type a DMC colour first, like 310, 823, B5200, Blanc, White, or Ecru."@
}

/// The status shown for a code that is not in the catalogue.
pub open spec fn unknown_colour_status(entered: Seq<char>) -> Seq<char> {
    "I could not find DMC colour: "@ + entered
}

/// A colour described as `DMC code — name — hex`.
pub open spec fn color_line(c: ColorRecord) -> Seq<char> {
    "DMC "@ + c.code + " — "@ + c.name + " — "@ + c.hex
}

/// The status shown with the substitutes for a colour.
pub open spec fn showing_status(c: ColorRecord) -> Seq<char> {
    "Showing closest substitutes for "@ + color_line(c)
}

/// The status shown when a substitute's code is copied.
pub open spec fn copied_status(code: Seq<char>) -> Seq<char> {
    "Copied DMC "@ + code + " to the clipboard."@
}

/// `DMC code — name — hex` for a colour.
pub fn color_line_text(c: &DmcColor) -> (r: String)
    ensures
        r@ == color_line(c@),
{
    let mut t: Vec<char> = Vec::new();
    push_str(&mut t, "DMC ");
    push_str(&mut t, c.code.as_str());
    push_str(&mut t, " — ");
    push_str(&mut t, c.name.as_str());
    push_str(&mut t, " — ");
    push_str(&mut t, c.hex.as_str());
    assert(t@ =~= color_line(c@));
    string_of(t.as_slice())
}

/// The state of the search screen: the catalogue, the typed colour, how many substitutes to
/// list, the colour found, its substitutes, the chosen substitute and the status line.
pub struct SubstituteApp {
    pub colors: Vec<DmcColor>,
    pub input_code: String,
    pub match_count: usize,
    pub target_index: Option<usize>,
    pub matches: Vec<MatchResult>,
    pub selected_match: Option<usize>,
    pub status: String,
}

impl SubstituteApp {
    /// The colour found and every listed substitute are catalogue positions.
    pub open spec fn wf(&self) -> bool {
        &&& self.target_index matches Some(t) ==> t < self.colors@.len()
        &&& forall|k: int|
            0 <= k < self.matches@.len() ==> (#[trigger] self.matches@[k]).color_index
                < self.colors@.len()
    }

    /// The screen before any search: nothing typed, ten substitutes, nothing found.
    pub fn new(colors: Vec<DmcColor>) -> (r: Self)
        ensures
            r.wf(),
            r.colors@ == colors@,
            r.input_code@ == Seq::<char>::empty(),
            r.match_count == 10,
            r.target_index is None,
            r.matches@.len() == 0,
            r.selected_match is None,
            r.status@ == welcome_status(),
    {
        SubstituteApp {
            colors,
            input_code: String::new(),
            match_count: 10,
            target_index: None,
            matches: Vec::new(),
            selected_match: None,
            status: "Enter a DMC number like 310, 823, B5200, Blanc, or Ecru.".to_string(),
        }
    }

    /// The first half of a search for the typed colour: the colour found, whose distances the
    /// caller then works out for `finish_search`. Where nothing is typed only the status
    /// changes; where the code is not in the catalogue the previous result is cleared too.
    pub fn begin_search(&mut self) -> (r: Option<usize>)
        requires
            old(self).wf(),
        ensures
            final(self).wf(),
            final(self).colors == old(self).colors,
            final(self).input_code == old(self).input_code,
            final(self).match_count == old(self).match_count,
            ({
                let entered = extracted(old(self).input_code@);
                let found = first_with_code(records(old(self).colors@), normalized(entered));
                if entered.len() == 0 {
                    &&& r is None
                    &&& final(self).status@ == empty_entry_status()
                    &&& final(self).target_index == old(self).target_index
                    &&& final(self).matches@ == old(self).matches@
                    &&& final(self).selected_match == old(self).selected_match
                } else if found is None {
                    &&& r is None
                    &&& final(self).status@ == unknown_colour_status(entered)
                    &&& final(self).target_index is None
                    &&& final(self).matches@.len() == 0
                    &&& final(self).selected_match is None
                } else {
                    &&& r matches Some(t) && found == Some(t as int)
                    &&& final(self).status == old(self).status
                    &&& final(self).target_index == old(self).target_index
                    &&& final(self).matches@ == old(self).matches@
                    &&& final(self).selected_match == old(self).selected_match
                }
            }),
    {
        let entered = extract_code(self.input_code.as_str());
        let entered_chars = chars_of(entered.as_str());
        if entered_chars.len() == 0 {
            self.status = "Type a DMC colour first, like 310, 823, B5200, Blanc, White, or Ecru.".to_string();
            return None;
        }
        match find_color_index(self.colors.as_slice(), entered.as_str()) {
            Some(t) => Some(t),
            None => {
                self.target_index = None;
                self.matches = Vec::new();
                self.selected_match = None;
                let mut s: Vec<char> = Vec::new();
                push_str(&mut s, "I could not find DMC colour: ");
                push_str(&mut s, entered.as_str());
                self.status = string_of(s.as_slice());
                None
            },
        }
    }

    /// The second half of a search: lists the substitutes for colour `target_index`, whose
    /// distance keys from every catalogue colour are `distances`, and chooses the first.
    pub fn finish_search(&mut self, target_index: usize, distances: &[u64])
        requires
            old(self).wf(),
            target_index < old(self).colors@.len(),
            distances@.len() == old(self).colors@.len(),
        ensures
            final(self).wf(),
            final(self).colors == old(self).colors,
            final(self).input_code == old(self).input_code,
            final(self).match_count == old(self).match_count,
            final(self).target_index == Some(target_index),
            is_best_ranking(
                records(old(self).colors@),
                target_index as int,
                None,
                distances@,
                clamp_count(old(self).match_count as int),
                final(self).matches@,
            ),
            final(self).selected_match == (if final(self).matches@.len() == 0 {
                None
            } else {
                Some(0usize)
            }),
            final(self).status@ == showing_status(old(self).colors@[target_index as int]@),
    {
        let count = if self.match_count < 3 {
            3
        } else if self.match_count > 25 {
            25
        } else {
            self.match_count
        };
        self.target_index = Some(target_index);
        let matches = best_matches(self.colors.as_slice(), target_index, count, None, distances);
        proof {
            assert forall|k: int| 0 <= k < matches@.len() implies (#[trigger] matches@[k]).color_index
                < self.colors@.len() by {
                assert(crate::matching::is_candidate(
                    records(self.colors@),
                    target_index as int,
                    None,
                    matches@[k].color_index as int,
                ));
            }
        }
        self.matches = matches;
        self.selected_match = if self.matches.len() == 0 {
            None
        } else {
            Some(0)
        };
        let mut s: Vec<char> = Vec::new();
        push_str(&mut s, "Showing closest substitutes for ");
        let line = color_line_text(&self.colors[target_index]);
        push_str(&mut s, line.as_str());
        self.status = string_of(s.as_slice());
    }

    /// Chooses the substitute in row `row`.
    pub fn select_match(&mut self, row: usize)
        requires
            old(self).wf(),
        ensures
            final(self).wf(),
            final(self).selected_match == Some(row),
            final(self).colors == old(self).colors,
            final(self).input_code == old(self).input_code,
            final(self).match_count == old(self).match_count,
            final(self).target_index == old(self).target_index,
            final(self).matches@ == old(self).matches@,
            final(self).status == old(self).status,
    {
        self.selected_match = Some(row);
    }

    /// Copies the code of the substitute in row `row`: chooses it, says so in the status, and
    /// gives the code to put on the clipboard.
    pub fn copy_match(&mut self, row: usize) -> (code: String)
        requires
            old(self).wf(),
            row < old(self).matches@.len(),
        ensures
            final(self).wf(),
            code@ == old(self).colors@[old(self).matches@[row as int].color_index as int].code@,
            final(self).selected_match == Some(row),
            final(self).status@ == copied_status(code@),
            final(self).colors == old(self).colors,
            final(self).input_code == old(self).input_code,
            final(self).match_count == old(self).match_count,
            final(self).target_index == old(self).target_index,
            final(self).matches@ == old(self).matches@,
    {
        let index = self.matches[row].color_index;
        let code = self.colors[index].code.clone();
        let mut s: Vec<char> = Vec::new();
        push_str(&mut s, "Copied DMC ");
        push_str(&mut s, code.as_str());
        push_str(&mut s, " to the clipboard.");
        self.status = string_of(s.as_slice());
        self.selected_match = Some(row);
        code
    }

    /// The catalogue position of the chosen substitute, where one is chosen and listed.
    pub fn selected_color_index(&self) -> (r: Option<usize>)
        ensures
            r == (match self.selected_match {
                Some(s) => if s < self.matches@.len() {
                    Some(self.matches@[s as int].color_index)
                } else {
                    None
                },
                None => None,
            }),
    {
        match self.selected_match {
            Some(s) => if s < self.matches.len() {
                Some(self.matches[s].color_index)
            } else {
                None
            },
            None => None,
        }
    }
}

} // verus!
