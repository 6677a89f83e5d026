//! Stash lists exported by FlossKeeper: one colour per line as `code bobbins skeins`.

use vstd::prelude::*;

use crate::stash::{owned_text, sat_add};
use crate::text::{
    chars_of, decimal, join, join_chars, lines, lines_of, parse_u32, parse_u32_chars, push_all,
    push_decimal, string_of, trim, trim_chars, views, words, words_of,
};

verus! {

/// The number that a FlossKeeper count gives: its value, or 0 where it is not a number.
pub open spec fn count_or_zero(s: Seq<char>) -> u32 {
    match parse_u32(trim(s)) {
        Some(v) => v,
        None => 0,
    }
}

/// The stash line for one line of a FlossKeeper collection: `code xN`, where `N` is the sum
/// of bobbins and skeins (capped at `u32::MAX`); none for a blank line, a `#` comment, a line
/// with fewer than three fields, or a colour with nothing owned.
pub open spec fn flosskeeper_line(l: Seq<char>) -> Option<Seq<char>> {
    let t = trim(l);
    if t.len() == 0 || t[0] == '#' {
        None
    } else {
        let parts = words(t);
        if parts.len() < 3 {
            None
        } else {
            let total = sat_add(count_or_zero(parts[1]), count_or_zero(parts[2]));
            if total > 0 {
                Some(owned_text(trim(parts[0]), total))
            } else {
                None
            }
        }
    }
}

/// The stash lines of the lines `ls`, in order.
pub open spec fn flosskeeper_lines(ls: Seq<Seq<char>>) -> Seq<Seq<char>>
    decreases ls.len(),
{
    if ls.len() == 0 {
        seq![]
    } else {
        let init = flosskeeper_lines(ls.drop_last());
        match flosskeeper_line(ls.last()) {
            Some(s) => init.push(s),
            None => init,
        }
    }
}

/// The stash text for a FlossKeeper collection: its stash lines, each ended by a newline;
/// `None` where no colour is owned.
pub open spec fn flosskeeper_text(input: Seq<char>) -> Option<Seq<char>> {
    let out = flosskeeper_lines(lines(input));
    if out.len() == 0 {
        None
    } else {
        Some(join(out, seq!['\n']) + seq!['\n'])
    }
}

fn flosskeeper_line_of(l: &[char]) -> (r: Option<Vec<char>>)
    ensures
        match r {
            Some(s) => flosskeeper_line(l@) == Some(s@),
            None => flosskeeper_line(l@) is None,
        },
{
    let t = trim_chars(l);
    if t.len() == 0 || t[0] == '#' {
        return None;
    }
    let parts = words_of(t.as_slice());
    if parts.len() < 3 {
        return None;
    }
    assert(views(parts@)[1] == parts@[1]@ && views(parts@)[2] == parts@[2]@);
    assert(views(parts@)[0] == parts@[0]@);
    let bobbins = match parse_u32_chars(trim_chars(parts[1].as_slice()).as_slice()) {
        Some(v) => v,
        None => 0,
    };
    let skeins = match parse_u32_chars(trim_chars(parts[2].as_slice()).as_slice()) {
        Some(v) => v,
        None => 0,
    };
    let total = bobbins.saturating_add(skeins);
    if total > 0 {
        let mut s = trim_chars(parts[0].as_slice());
        s.push(' ');
        s.push('x');
        push_decimal(&mut s, total as u64);
        Some(s)
    } else {
        None
    }
}

/// The stash text for the contents of a FlossKeeper collection file (lines of
/// `code bobbins skeins`): one `code xN` line per owned colour, each ended by a newline; an
/// error where no colour is owned.
pub fn flosskeeper_stash_text(input: &str) -> (r: Result<String, String>)
    ensures
        match r {
            Ok(text) => flosskeeper_text(input@) == Some(text@),
            Err(msg) => flosskeeper_text(input@) is None
                && msg@ == "No owned colours found in the selected FlossKeeper stash file."@,
        },
{
    let chars = chars_of(input);
    let ls = lines_of(chars.as_slice());
    let ghost lv = views(ls@);
    let mut output: Vec<Vec<char>> = Vec::new();
    let mut i: usize = 0;
    assert(lv.take(0) =~= Seq::<Seq<char>>::empty());
    assert(views(output@) =~= Seq::<Seq<char>>::empty());
    while i < ls.len()
        invariant
            i <= ls@.len(),
            lv == views(ls@),
            views(output@) == flosskeeper_lines(lv.take(i as int)),
        decreases ls@.len() - i,
    {
        assert(lv.take(i + 1).drop_last() =~= lv.take(i as int));
        assert(lv.take(i + 1).last() == ls@[i as int]@);
        match flosskeeper_line_of(ls[i].as_slice()) {
            Some(s) => {
                let ghost before = views(output@);
                output.push(s);
                assert(views(output@) =~= before.push(output@.last()@));
            },
            None => {},
        }
        i += 1;
    }
    assert(lv.take(lv.len() as int) =~= lv);
    if output.len() == 0 {
        return Err("No owned colours found in the selected FlossKeeper stash file.".to_string());
    }
    let newline = ['\n'];
    assert(newline@ =~= seq!['\n']);
    let mut text = join_chars(&output, output.len(), newline.as_slice());
    assert(views(output@).take(output@.len() as int) =~= views(output@));
    text.push('\n');
    Ok(string_of(text.as_slice()))
}

/// Where FlossKeeper keeps its collection, under the home folder `home`.
pub fn flosskeeper_path_for_home(home: &str) -> (r: String)
    ensures
        r@ == home@ + "/FlossKeeperSync/flosskeeper_collection.tsv"@,
{
    let mut path = chars_of(home);
    let rest = chars_of("/FlossKeeperSync/flosskeeper_collection.tsv");
    push_all(&mut path, rest.as_slice());
    string_of(path.as_slice())
}

} // verus!
