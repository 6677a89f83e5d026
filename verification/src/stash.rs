//! The stash list: owned colours with quantities, typed in a free form.

use std::collections::{HashMap, HashSet};
use vstd::prelude::*;

use crate::code::{extract_code, extracted, normalize_code, normalized};
use crate::color::{first_with_code, find_color_index, records, ColorRecord, DmcColor};
use crate::order::{is_sorted, sort_texts, texts};
use crate::text::{
    all_digits, byte_len, char_index_at_byte, char_index_of_byte, chars_all_digits, chars_of,
    decimal, has_char_boundary, join, join_chars, lines, lines_of, push_decimal, split_any,
    split_chars, starts_with, starts_with_at, views, words, words_of,
    copy_range, is_ascii_char, is_char_boundary, last_index_of, lemma_last_index_of_bounds,
    lower_case, parse_u32, parse_u32_chars, prefix_byte_len, rfind_char, string_of, strip_prefixes,
    strip_prefixes_chars, to_lowercase, trim, trim_chars,
};

verus! {

/// The digits of a quantity text: trimmed, without the leading markers `x`, `X`, `qty`, `Qty`,
/// `QTY`, `=` and `:` (each stripped in that order, repeated ones all), trimmed again.
pub open spec fn quantity_text(s: Seq<char>) -> Seq<char> {
    let t = strip_prefixes(trim(s), seq!['x']);
    let t = strip_prefixes(t, seq!['X']);
    let t = strip_prefixes(t, seq!['q', 't', 'y']);
    let t = strip_prefixes(t, seq!['Q', 't', 'y']);
    let t = strip_prefixes(t, seq!['Q', 'T', 'Y']);
    let t = strip_prefixes(t, seq!['=']);
    let t = strip_prefixes(t, seq![':']);
    trim(t)
}

/// The quantity that a text such as `x2`, `qty 3` or `=4` gives: its digits, if there are
/// some, they are all decimal digits and their value fits in a `u32`.
pub open spec fn quantity(s: Seq<char>) -> Option<u32> {
    let d = quantity_text(s);
    if d.len() == 0 || !all_digits(d) {
        None
    } else {
        parse_u32(d)
    }
}

fn strip_marker(s: Vec<char>, marker: &[char]) -> (r: Vec<char>)
    ensures
        r@ == strip_prefixes(s@, marker@),
{
    strip_prefixes_chars(s.as_slice(), marker)
}

/// The quantity that the characters `s` give.
pub fn quantity_of(s: &[char]) -> (r: Option<u32>)
    ensures
        r == quantity(s@),
{
    let x = ['x'];
    let upper_x = ['X'];
    let qty = ['q', 't', 'y'];
    let qty_title = ['Q', 't', 'y'];
    let qty_upper = ['Q', 'T', 'Y'];
    let eq = ['='];
    let colon = [':'];
    assert(x@ =~= seq!['x'] && upper_x@ =~= seq!['X'] && eq@ =~= seq!['='] && colon@ =~= seq![':']);
    assert(qty@ =~= seq!['q', 't', 'y'] && qty_title@ =~= seq!['Q', 't', 'y'] && qty_upper@
        =~= seq!['Q', 'T', 'Y']);
    let t = trim_chars(s);
    let t = strip_marker(t, x.as_slice());
    let t = strip_marker(t, upper_x.as_slice());
    let t = strip_marker(t, qty.as_slice());
    let t = strip_marker(t, qty_title.as_slice());
    let t = strip_marker(t, qty_upper.as_slice());
    let t = strip_marker(t, eq.as_slice());
    let t = strip_marker(t, colon.as_slice());
    let d = trim_chars(t.as_slice());
    if d.len() == 0 || !chars_all_digits(d.as_slice()) {
        return None;
    }
    parse_u32_chars(d.as_slice())
}

/// The quantity that a text such as `x2`, `qty 3` or `=4` gives.
pub fn parse_quantity(input: &str) -> (r: Option<u32>)
    ensures
        r == quantity(input@),
{
    let chars = chars_of(input);
    quantity_of(chars.as_slice())
}

/// The byte offset of the last `x` in the lower-cased `s`, where there is one.
pub open spec fn x_offset(s: Seq<char>) -> Option<int> {
    let l = lower_case(s);
    match last_index_of(l, 'x') {
        Some(k) => Some(byte_len(l.take(k)) as int),
        None => None,
    }
}

/// Where `s` has an `x` once lower-cased, its byte offset also falls between characters of
/// `s`, so that `s` can be split there.
pub open spec fn x_split_sound(s: Seq<char>) -> bool {
    match x_offset(s) {
        Some(b) => is_char_boundary(s, b),
        None => true,
    }
}

/// An entry that ends in an `x` quantity, such as `B5200x2` or `310 X 3`, split into its
/// trimmed code part and the quantity: cut at the last `x` (found in the lower-cased text),
/// with a nonblank code part before it and a quantity after it.
pub open spec fn trailing_x_quantity(s: Seq<char>) -> Option<(Seq<char>, u32)> {
    match x_offset(s) {
        None => None,
        Some(b) => {
            let k = char_index_at_byte(s, b);
            let code_part = s.take(k);
            let rest = s.skip(k);
            if rest.len() == 0 || !is_ascii_char(rest[0]) {
                None
            } else if trim(code_part).len() == 0 {
                None
            } else {
                match quantity(trim(rest.drop_first())) {
                    Some(q) => Some((trim(code_part), q)),
                    None => None,
                }
            }
        },
    }
}

/// Splits an entry such as `B5200x2` at its last `x` into the code part and the quantity.
pub fn split_trailing_x_quantity(input: &str) -> (r: Option<(String, u32)>)
    requires
        x_split_sound(input@),
    ensures
        match r {
            Some((code, q)) => trailing_x_quantity(input@) == Some((code@, q)),
            None => trailing_x_quantity(input@) is None,
        },
{
    let lower = to_lowercase(input);
    let lower_chars = chars_of(lower.as_str());
    let k = match rfind_char(lower_chars.as_slice(), 'x') {
        Some(k) => k,
        None => return None,
    };
    proof {
        lemma_last_index_of_bounds(lower_chars@, 'x');
    }
    let offset = prefix_byte_len(lower_chars.as_slice(), k);
    let chars = chars_of(input);
    let split = char_index_of_byte(chars.as_slice(), offset);
    let ghost s = input@;
    if split == chars.len() {
        assert(s.skip(split as int).len() == 0);
        return None;
    }
    assert(s.skip(split as int)[0] == s[split as int]);
    if chars[split] as u32 >= 128 {
        return None;
    }
    let code_part = trim_chars(copy_range(chars.as_slice(), 0, split).as_slice());
    assert(s.subrange(0, split as int) =~= s.take(split as int));
    if code_part.len() == 0 {
        return None;
    }
    let rest = copy_range(chars.as_slice(), split + 1, chars.len());
    assert(s.subrange(split + 1, s.len() as int) =~= s.skip(split as int).drop_first());
    let quantity_part = trim_chars(rest.as_slice());
    match quantity_of(quantity_part.as_slice()) {
        Some(q) => Some((string_of(code_part.as_slice()), q)),
        None => None,
    }
}


/// A quantity of at least one: `0` counts as `1`.
pub open spec fn at_least_one(q: u32) -> u32 {
    if q == 0 {
        1
    } else {
        q
    }
}

/// A quantity text that carries an explicit marker: trimmed, it starts with `x`, `X`, `qty`,
/// `Qty` or `QTY`.
pub open spec fn has_quantity_marker(s: Seq<char>) -> bool {
    let t = trim(s);
    ||| starts_with(t, seq!['x'])
    ||| starts_with(t, seq!['X'])
    ||| starts_with(t, seq!['q', 't', 'y'])
    ||| starts_with(t, seq!['Q', 't', 'y'])
    ||| starts_with(t, seq!['Q', 'T', 'Y'])
}

/// An entry `code<sep>quantity`, cut at the last `sep`, where the part after it is a quantity
/// (a marked one, where `marked` is set).
pub open spec fn quantity_after(c: Seq<char>, sep: char, marked: bool) -> Option<(Seq<char>, u32)> {
    match last_index_of(c, sep) {
        Some(k) => match quantity(c.skip(k + 1)) {
            Some(q) => if !marked || has_quantity_marker(c.skip(k + 1)) {
                Some((extracted(c.take(k)), at_least_one(q)))
            } else {
                None
            },
            None => None,
        },
        None => None,
    }
}

/// An entry of two or more words whose last word is a quantity: the other words, joined
/// by single spaces, name the code.
pub open spec fn quantity_last_word(c: Seq<char>) -> Option<(Seq<char>, u32)> {
    let ws = words(c);
    if ws.len() >= 2 {
        match quantity(ws.last()) {
            Some(q) => Some((extracted(join(ws.drop_last(), seq![' '])), at_least_one(q))),
            None => None,
        }
    } else {
        None
    }
}

/// An entry that ends in an `x` quantity.
pub open spec fn quantity_trailing_x(c: Seq<char>) -> Option<(Seq<char>, u32)> {
    match trailing_x_quantity(c) {
        Some((p, q)) => Some((extracted(p), at_least_one(q))),
        None => None,
    }
}

/// The code and quantity of one stash entry. The forms tried, in order: `code=qty`,
/// `code:qty`, `code, xqty` (each cut at the last separator; after a comma the quantity
/// must be marked by `x` or `qty`, as in `310, x2`, since commas otherwise separate codes), `code qty` (the last
/// word), `codexqty`; otherwise the whole entry is a code with quantity 1. A quantity of 0
/// counts as 1, and a blank entry gives an empty code.
pub open spec fn stash_entry(s: Seq<char>) -> (Seq<char>, u32) {
    let c = trim(s);
    if c.len() == 0 {
        (seq![], 1)
    } else if quantity_after(c, '=', false) is Some {
        quantity_after(c, '=', false)->0
    } else if quantity_after(c, ':', false) is Some {
        quantity_after(c, ':', false)->0
    } else if quantity_after(c, ',', true) is Some {
        quantity_after(c, ',', true)->0
    } else if quantity_last_word(c) is Some {
        quantity_last_word(c)->0
    } else if quantity_trailing_x(c) is Some {
        quantity_trailing_x(c)->0
    } else {
        (extracted(c), 1)
    }
}

/// Reading the entry never reaches an `x` split that would cut a character apart.
pub open spec fn stash_entry_sound(s: Seq<char>) -> bool {
    let c = trim(s);
    ||| c.len() == 0
    ||| quantity_after(c, '=', false) is Some
    ||| quantity_after(c, ':', false) is Some
    ||| quantity_after(c, ',', true) is Some
    ||| quantity_last_word(c) is Some
    ||| x_split_sound(c)
}

/// Whether the quantity text `s` starts, once trimmed, with a quantity marker.
fn quantity_marked(s: &[char]) -> (b: bool)
    ensures
        b == has_quantity_marker(s@),
{
    let t = trim_chars(s);
    let x = ['x'];
    let upper_x = ['X'];
    let qty = ['q', 't', 'y'];
    let qty_title = ['Q', 't', 'y'];
    let qty_upper = ['Q', 'T', 'Y'];
    assert(x@ =~= seq!['x'] && upper_x@ =~= seq!['X']);
    assert(qty@ =~= seq!['q', 't', 'y'] && qty_title@ =~= seq!['Q', 't', 'y'] && qty_upper@
        =~= seq!['Q', 'T', 'Y']);
    assert(t@.skip(0) =~= t@);
    let ts = t.as_slice();
    starts_with_at(ts, 0, x.as_slice()) || starts_with_at(ts, 0, upper_x.as_slice())
        || starts_with_at(ts, 0, qty.as_slice()) || starts_with_at(ts, 0, qty_title.as_slice())
        || starts_with_at(ts, 0, qty_upper.as_slice())
}

fn quantity_after_char(c: &[char], sep: char, marked: bool) -> (r: Option<(String, u32)>)
    ensures
        match r {
            Some((code, q)) => quantity_after(c@, sep, marked) == Some((code@, q)),
            None => quantity_after(c@, sep, marked) is None,
        },
{
    match rfind_char(c, sep) {
        Some(k) => {
            proof {
                lemma_last_index_of_bounds(c@, sep);
            }
            let n = c.len();
            assert(k < n);
            let right = copy_range(c, k + 1, n);
            assert(c@.subrange(k + 1, c@.len() as int) =~= c@.skip(k + 1));
            match quantity_of(right.as_slice()) {
                Some(q) => {
                    if marked && !quantity_marked(right.as_slice()) {
                        return None;
                    }
                    let left = string_of(copy_range(c, 0, k).as_slice());
                    assert(c@.subrange(0, k as int) =~= c@.take(k as int));
                    let q1 = if q == 0 {
                        1
                    } else {
                        q
                    };
                    Some((extract_code(left.as_str()), q1))
                },
                None => None,
            }
        },
        None => None,
    }
}

fn quantity_last_word_of(c: &[char]) -> (r: Option<(String, u32)>)
    ensures
        match r {
            Some((code, q)) => quantity_last_word(c@) == Some((code@, q)),
            None => quantity_last_word(c@) is None,
        },
{
    let tokens = words_of(c);
    if tokens.len() >= 2 {
        let n = tokens.len();
        assert(views(tokens@).last() == tokens@[n - 1]@);
        match quantity_of(tokens[n - 1].as_slice()) {
            Some(q) => {
                let space = [' '];
                assert(space@ =~= seq![' ']);
                let code_part = join_chars(&tokens, n - 1, space.as_slice());
                assert(views(tokens@).take(n - 1) =~= views(tokens@).drop_last());
                let q1 = if q == 0 {
                    1
                } else {
                    q
                };
                Some((extract_code(string_of(code_part.as_slice()).as_str()), q1))
            },
            None => None,
        }
    } else {
        None
    }
}

/// The code and quantity of one stash entry such as `310 x2`, `666=1`, `823:3` or `3812`.
pub fn parse_stash_entry(input: &str) -> (r: (String, u32))
    requires
        stash_entry_sound(input@),
    ensures
        (r.0@, r.1) == stash_entry(input@),
{
    let chars = chars_of(input);
    let cleaned = trim_chars(chars.as_slice());
    if cleaned.len() == 0 {
        return (String::new(), 1);
    }
    match quantity_after_char(cleaned.as_slice(), '=', false) {
        Some(r) => return r,
        None => {},
    }
    match quantity_after_char(cleaned.as_slice(), ':', false) {
        Some(r) => return r,
        None => {},
    }
    match quantity_after_char(cleaned.as_slice(), ',', true) {
        Some(r) => return r,
        None => {},
    }
    match quantity_last_word_of(cleaned.as_slice()) {
        Some(r) => return r,
        None => {},
    }
    let cleaned_str = string_of(cleaned.as_slice());
    match split_trailing_x_quantity(cleaned_str.as_str()) {
        Some((code_part, q)) => {
            let q1 = if q == 0 {
                1
            } else {
                q
            };
            return (extract_code(code_part.as_str()), q1);
        },
        None => {},
    }
    (extract_code(cleaned_str.as_str()), 1)
}


/// The trimmed pieces of `ps` that are not blank.
pub open spec fn nonblank_trimmed(ps: Seq<Seq<char>>) -> Seq<Seq<char>>
    decreases ps.len(),
{
    if ps.len() == 0 {
        seq![]
    } else {
        let init = nonblank_trimmed(ps.drop_last());
        let t = trim(ps.last());
        if t.len() == 0 {
            init
        } else {
            init.push(t)
        }
    }
}

/// The entries of one `;`- or `|`-separated group: the trimmed group, or, where it has more
/// than one comma-separated part and is not exactly `code, <marked quantity>` (such as
/// `310, x2`), those parts: `3812, 3810` lists two codes.
pub open spec fn group_entries(group: Seq<char>) -> Seq<Seq<char>> {
    let g = trim(group);
    if g.len() == 0 {
        seq![]
    } else {
        let parts = nonblank_trimmed(split_any(g, seq![',']));
        if parts.len() == 2 && quantity(parts[1]) is Some && has_quantity_marker(parts[1]) {
            seq![g]
        } else if parts.len() > 1 {
            parts
        } else {
            seq![g]
        }
    }
}

/// The entries of the groups `gs`, in order.
pub open spec fn groups_entries(gs: Seq<Seq<char>>) -> Seq<Seq<char>>
    decreases gs.len(),
{
    if gs.len() == 0 {
        seq![]
    } else {
        groups_entries(gs.drop_last()) + group_entries(gs.last())
    }
}

/// The entries of a stash line: its `;`- or `|`-separated groups, each split as
/// `group_entries` says.
pub open spec fn stash_line_entries(line: Seq<char>) -> Seq<Seq<char>> {
    groups_entries(split_any(line, seq![';', '|']))
}

fn nonblank_trimmed_of(ps: &Vec<Vec<char>>) -> (r: Vec<Vec<char>>)
    ensures
        views(r@) == nonblank_trimmed(views(ps@)),
{
    let mut r: Vec<Vec<char>> = Vec::new();
    let mut i: usize = 0;
    assert(views(ps@).take(0) =~= Seq::<Seq<char>>::empty());
    assert(views(r@) =~= Seq::<Seq<char>>::empty());
    while i < ps.len()
        invariant
            i <= ps@.len(),
            views(r@) == nonblank_trimmed(views(ps@).take(i as int)),
        decreases ps@.len() - i,
    {
        assert(views(ps@).take(i + 1).drop_last() =~= views(ps@).take(i as int));
        assert(views(ps@).take(i + 1).last() == ps@[i as int]@);
        let t = trim_chars(ps[i].as_slice());
        if t.len() > 0 {
            let ghost before = views(r@);
            r.push(t);
            assert(views(r@) =~= before.push(r@.last()@));
        }
        i += 1;
    }
    assert(views(ps@).take(ps@.len() as int) =~= views(ps@));
    r
}

fn group_entries_of(group: &[char]) -> (r: Vec<Vec<char>>)
    ensures
        views(r@) == group_entries(group@),
{
    let g = trim_chars(group);
    if g.len() == 0 {
        let r: Vec<Vec<char>> = Vec::new();
        assert(views(r@) =~= Seq::<Seq<char>>::empty());
        return r;
    }
    let comma = [','];
    assert(comma@ =~= seq![',']);
    let pieces = split_chars(g.as_slice(), comma.as_slice());
    let parts = nonblank_trimmed_of(&pieces);
    let whole = if parts.len() == 2 {
        assert(views(parts@)[1] == parts@[1]@);
        quantity_of(parts[1].as_slice()).is_some() && quantity_marked(parts[1].as_slice())
    } else {
        false
    };
    if whole || parts.len() <= 1 {
        let mut r: Vec<Vec<char>> = Vec::new();
        let ghost gv = g@;
        r.push(g);
        assert(views(r@) =~= seq![gv]);
        r
    } else {
        parts
    }
}

fn line_entries_of(line: &[char]) -> (r: Vec<Vec<char>>)
    ensures
        views(r@) == stash_line_entries(line@),
{
    let seps = [';', '|'];
    assert(seps@ =~= seq![';', '|']);
    let groups = split_chars(line, seps.as_slice());
    let ghost gs = views(groups@);
    let mut r: Vec<Vec<char>> = Vec::new();
    let mut i: usize = 0;
    assert(gs.take(0) =~= Seq::<Seq<char>>::empty());
    assert(views(r@) =~= Seq::<Seq<char>>::empty());
    while i < groups.len()
        invariant
            i <= groups@.len(),
            gs == views(groups@),
            views(r@) == groups_entries(gs.take(i as int)),
        decreases groups@.len() - i,
    {
        assert(gs.take(i + 1).drop_last() =~= gs.take(i as int));
        assert(gs.take(i + 1).last() == groups@[i as int]@);
        let mut es = group_entries_of(groups[i].as_slice());
        let ghost before = views(r@);
        let ghost added = views(es@);
        r.append(&mut es);
        assert(views(r@) =~= before + added);
        i += 1;
    }
    assert(gs.take(gs.len() as int) =~= gs);
    r
}

/// The entries of one stash line, such as `3812, 3810, 3847` or `310 x2; 666=1`.
pub fn split_stash_line(line: &str) -> (r: Vec<String>)
    ensures
        texts(r@) == stash_line_entries(line@),
{
    let chars = chars_of(line);
    let es = line_entries_of(chars.as_slice());
    let mut r: Vec<String> = Vec::new();
    let mut i: usize = 0;
    while i < es.len()
        invariant
            i <= es@.len(),
            views(es@) == stash_line_entries(line@),
            texts(r@) == views(es@).take(i as int),
        decreases es@.len() - i,
    {
        let s = string_of(es[i].as_slice());
        let ghost before = texts(r@);
        r.push(s);
        assert(texts(r@) =~= before.push(es@[i as int]@));
        assert(views(es@).take(i + 1) =~= views(es@).take(i as int).push(es@[i as int]@));
        i += 1;
    }
    assert(views(es@).take(es@.len() as int) =~= views(es@));
    r
}


/// Whether the lower-cased `s` can be split at its last `x` without cutting a character of
/// `s` apart.
pub fn x_split_is_sound(s: &str) -> (b: bool)
    ensures
        b == x_split_sound(s@),
{
    let lower = to_lowercase(s);
    let lower_chars = chars_of(lower.as_str());
    match rfind_char(lower_chars.as_slice(), 'x') {
        Some(k) => {
            proof {
                lemma_last_index_of_bounds(lower_chars@, 'x');
            }
            let offset = prefix_byte_len(lower_chars.as_slice(), k);
            let chars = chars_of(s);
            has_char_boundary(chars.as_slice(), offset)
        },
        None => true,
    }
}

/// Whether `parse_stash_entry` can read the entry, which it asks of its input.
pub fn stash_entry_is_sound(input: &str) -> (b: bool)
    ensures
        b == stash_entry_sound(input@),
{
    let chars = chars_of(input);
    let cleaned = trim_chars(chars.as_slice());
    if cleaned.len() == 0 {
        return true;
    }
    if quantity_after_char(cleaned.as_slice(), '=', false).is_some() || quantity_after_char(
        cleaned.as_slice(),
        ':',
        false,
    ).is_some() || quantity_after_char(cleaned.as_slice(), ',', true).is_some()
        || quantity_last_word_of(cleaned.as_slice()).is_some() {
        return true;
    }
    x_split_is_sound(string_of(cleaned.as_slice()).as_str())
}


broadcast use vstd::std_specs::hash::group_hash_axioms;

/// The text of a stash line before its first `#`, trimmed.
pub open spec fn without_comment(l: Seq<char>) -> Seq<char> {
    trim(split_any(l, seq!['#'])[0])
}

/// The entries of one line of stash text (none for a blank or comment-only line).
pub open spec fn line_stash_entries(l: Seq<char>) -> Seq<Seq<char>> {
    let c = without_comment(l);
    if c.len() == 0 {
        seq![]
    } else {
        stash_line_entries(c)
    }
}

/// The entries of the lines `ls`, in order.
pub open spec fn lines_entries(ls: Seq<Seq<char>>) -> Seq<Seq<char>>
    decreases ls.len(),
{
    if ls.len() == 0 {
        seq![]
    } else {
        lines_entries(ls.drop_last()) + line_stash_entries(ls.last())
    }
}

/// The entries of a stash text, line by line.
pub open spec fn stash_entries(input: Seq<char>) -> Seq<Seq<char>> {
    lines_entries(lines(input))
}

pub proof fn lemma_lines_entries_prefix(ls: Seq<Seq<char>>, j: int)
    requires
        0 <= j <= ls.len(),
    ensures
        lines_entries(ls.take(j)).len() <= lines_entries(ls).len(),
        lines_entries(ls).take(lines_entries(ls.take(j)).len() as int) == lines_entries(ls.take(j)),
    decreases ls.len(),
{
    if j == ls.len() {
        assert(ls.take(j) =~= ls);
        assert(lines_entries(ls).take(lines_entries(ls).len() as int) =~= lines_entries(ls));
    } else {
        let init = ls.drop_last();
        assert(init.take(j) =~= ls.take(j));
        lemma_lines_entries_prefix(init, j);
        let a = lines_entries(ls.take(j));
        let b = lines_entries(init);
        assert(lines_entries(ls) == b + line_stash_entries(ls.last()));
        assert((b + line_stash_entries(ls.last())).take(a.len() as int) =~= b.take(a.len() as int));
    }
}

/// What has been read of a stash so far: the quantity of each recognised colour, the
/// recognised colours in the order in which they first appeared, and the entries whose code
/// is not in the catalogue.
pub ghost struct StashTally {
    pub quantities: Map<usize, u32>,
    pub order: Seq<usize>,
    pub unknown: Seq<Seq<char>>,
}

/// `a + b`, or `u32::MAX` where that does not fit.
pub open spec fn sat_add(a: u32, b: u32) -> u32 {
    if a + b > u32::MAX {
        u32::MAX
    } else {
        (a + b) as u32
    }
}

/// The tally after one more entry: a blank entry, or one whose code is blank once normalised,
/// changes nothing; a code found in the catalogue adds its quantity (at least 1, capped at
/// `u32::MAX`) to that colour; any other entry is kept, trimmed, as unknown.
pub open spec fn tally_entry(rs: Seq<ColorRecord>, t: StashTally, e: Seq<char>) -> StashTally {
    let cleaned = trim(e);
    if cleaned.len() == 0 {
        t
    } else {
        let (code, q) = stash_entry(cleaned);
        if normalized(code).len() == 0 {
            t
        } else {
            match first_with_code(rs, normalized(code)) {
                Some(i) => {
                    let idx = i as usize;
                    let known = t.quantities.contains_key(idx);
                    let cur = if known {
                        t.quantities[idx]
                    } else {
                        0
                    };
                    StashTally {
                        quantities: t.quantities.insert(idx, sat_add(cur, at_least_one(q))),
                        order: if known {
                            t.order
                        } else {
                            t.order.push(idx)
                        },
                        unknown: t.unknown,
                    }
                },
                None => StashTally {
                    quantities: t.quantities,
                    order: t.order,
                    unknown: t.unknown.push(cleaned),
                },
            }
        }
    }
}

/// The tally of the entries `es`, read in order.
pub open spec fn tally(rs: Seq<ColorRecord>, es: Seq<Seq<char>>) -> StashTally
    decreases es.len(),
{
    if es.len() == 0 {
        StashTally { quantities: Map::empty(), order: seq![], unknown: seq![] }
    } else {
        tally_entry(rs, tally(rs, es.drop_last()), es.last())
    }
}

/// The sum of the quantities of the colours `order`.
pub open spec fn sum_quantities(q: Map<usize, u32>, order: Seq<usize>) -> nat
    decreases order.len(),
{
    if order.len() == 0 {
        0
    } else {
        sum_quantities(q, order.drop_last()) + q[order.last()] as nat
    }
}

pub proof fn lemma_sum_quantities_prefix(q: Map<usize, u32>, order: Seq<usize>, k: int)
    requires
        0 <= k <= order.len(),
    ensures
        sum_quantities(q, order.take(k)) <= sum_quantities(q, order),
    decreases order.len(),
{
    if k < order.len() {
        assert(order.drop_last().take(k) =~= order.take(k));
        lemma_sum_quantities_prefix(q, order.drop_last(), k);
    } else {
        assert(order.take(k) =~= order);
    }
}

/// The total of a stash's quantities.
pub open spec fn stash_total(t: StashTally) -> nat {
    sum_quantities(t.quantities, t.order)
}

/// A stash text can be read: no entry reaches an `x` split that cuts a character apart, and
/// the total of the quantities fits in a `u32`.
pub open spec fn stash_parse_sound(rs: Seq<ColorRecord>, input: Seq<char>) -> bool {
    let es = stash_entries(input);
    &&& forall|k: int| 0 <= k < es.len() ==> stash_entry_sound(trim(#[trigger] es[k]))
    &&& stash_total(tally(rs, es)) <= u32::MAX
}

/// How a recognised colour is listed: its code, `" x"`, and its quantity.
pub open spec fn owned_text(code: Seq<char>, q: u32) -> Seq<char> {
    code + seq![' ', 'x'] + decimal(q as nat)
}

/// The listing of each recognised colour, in the order of first appearance.
pub open spec fn recognized_texts(rs: Seq<ColorRecord>, t: StashTally) -> Seq<Seq<char>> {
    t.order.map_values(|i: usize| owned_text(rs[i as int].code, t.quantities[i]))
}

/// What reading a stash text gives.
#[derive(Debug)]
pub struct StashParseResult {
    pub indexes: HashSet<usize>,
    pub quantities: HashMap<usize, u32>,
    pub recognized_codes: Vec<String>,
    pub unknown_codes: Vec<String>,
    pub total_skeins: u32,
}

impl StashParseResult {
    /// This is what reading `input` against the catalogue `rs` gives: the quantity of each
    /// recognised colour, the set of those colours, their total, the listing `code xN` of each
    /// recognised colour sorted, and the unknown entries sorted.
    pub open spec fn reads(&self, rs: Seq<ColorRecord>, input: Seq<char>) -> bool {
        let t = tally(rs, stash_entries(input));
        &&& self.quantities@ == t.quantities
        &&& self.indexes@ == t.quantities.dom()
        &&& self.total_skeins == stash_total(t)
        &&& is_sorted(texts(self.recognized_codes@))
        &&& texts(self.recognized_codes@).to_multiset() == recognized_texts(rs, t).to_multiset()
        &&& is_sorted(texts(self.unknown_codes@))
        &&& texts(self.unknown_codes@).to_multiset() == t.unknown.to_multiset()
    }
}

/// The strings holding the given texts.
pub fn strings_of(v: &Vec<Vec<char>>) -> (r: Vec<String>)
    ensures
        texts(r@) == views(v@),
{
    let mut r: Vec<String> = Vec::new();
    let mut i: usize = 0;
    while i < v.len()
        invariant
            i <= v@.len(),
            texts(r@) == views(v@).take(i as int),
        decreases v@.len() - i,
    {
        let s = string_of(v[i].as_slice());
        let ghost before = texts(r@);
        r.push(s);
        assert(texts(r@) =~= before.push(v@[i as int]@));
        assert(views(v@).take(i + 1) =~= views(v@).take(i as int).push(v@[i as int]@));
        i += 1;
    }
    assert(views(v@).take(v@.len() as int) =~= views(v@));
    r
}


/// The recognised colours are catalogue positions, each listed once in `order` and each with
/// a quantity, and `order` lists every colour with a quantity.
pub open spec fn tally_wf(t: StashTally, n: nat) -> bool {
    &&& forall|j: int|
        0 <= j < t.order.len() ==> #[trigger] t.order[j] < n && t.quantities.contains_key(t.order[j])
    &&& forall|i: usize| t.quantities.contains_key(i) ==> t.order.contains(i)
    &&& t.order.no_duplicates()
}

/// The tally held in a quantity map, an order of first appearance and the unknown entries.
pub open spec fn state_of(q: Map<usize, u32>, order: Seq<usize>, unknown: Seq<Vec<char>>) -> StashTally {
    StashTally { quantities: q, order, unknown: views(unknown) }
}

/// Reads one entry into the tally; `false`, with nothing changed, where the entry cannot be
/// read.
fn tally_entry_exec(
    colors: &[DmcColor],
    quantities: &mut HashMap<usize, u32>,
    order: &mut Vec<usize>,
    unknown: &mut Vec<Vec<char>>,
    e: &[char],
) -> (ok: bool)
    requires
        tally_wf(state_of(old(quantities)@, old(order)@, old(unknown)@), colors@.len()),
    ensures
        ok == stash_entry_sound(trim(e@)),
        ok ==> state_of(final(quantities)@, final(order)@, final(unknown)@) == tally_entry(
            records(colors@),
            state_of(old(quantities)@, old(order)@, old(unknown)@),
            e@,
        ),
        !ok ==> state_of(final(quantities)@, final(order)@, final(unknown)@) == state_of(
            old(quantities)@,
            old(order)@,
            old(unknown)@,
        ),
        tally_wf(state_of(final(quantities)@, final(order)@, final(unknown)@), colors@.len()),
{
    let ghost rs = records(colors@);
    let cleaned = trim_chars(e);
    if cleaned.len() == 0 {
        return true;
    }
    let cleaned_str = string_of(cleaned.as_slice());
    if !stash_entry_is_sound(cleaned_str.as_str()) {
        return false;
    }
    let (code, q) = parse_stash_entry(cleaned_str.as_str());
    let norm = normalize_code(code.as_str());
    let norm_chars = chars_of(norm.as_str());
    if norm_chars.len() == 0 {
        return true;
    }
    match find_color_index(colors, code.as_str()) {
        Some(index) => {
            proof {
                crate::color::lemma_first_with_code(rs, normalized(code@));
            }
            let known = quantities.contains_key(&index);
            let cur: u32 = match quantities.get(&index) {
                Some(v) => *v,
                None => 0,
            };
            let add: u32 = if q == 0 {
                1
            } else {
                q
            };
            let ghost old_order = order@;
            let ghost old_q = quantities@;
            quantities.insert(index, cur.saturating_add(add));
            if !known {
                order.push(index);
                proof {
                    assert forall|j: int| 0 <= j < order@.len() implies #[trigger] order@[j] < colors@.len()
                        && quantities@.contains_key(order@[j]) by {
                        if j < old_order.len() {
                            assert(order@[j] == old_order[j]);
                        }
                    }
                    assert forall|i: usize| quantities@.contains_key(i) implies order@.contains(i) by {
                        if i != index {
                            assert(old_q.contains_key(i));
                            assert(old_order.contains(i));
                            let j = choose|j: int| 0 <= j < old_order.len() && old_order[j] == i;
                            assert(order@[j] == i);
                        } else {
                            assert(order@[old_order.len() as int] == i);
                        }
                    }
                    assert forall|a: int, b: int| 0 <= a < b < order@.len() implies order@[a] != order@[b] by {
                        if b == old_order.len() {
                            assert(order@[a] == old_order[a]);
                            assert(old_order.contains(old_order[a]));
                        } else {
                            assert(order@[a] == old_order[a] && order@[b] == old_order[b]);
                        }
                    }
                }
            } else {
                proof {
                    assert forall|i: usize| quantities@.contains_key(i) implies order@.contains(i) by {
                        assert(old_q.contains_key(i));
                    }
                }
            }
        },
        None => {
            let ghost before = views(unknown@);
            unknown.push(cleaned);
            assert(views(unknown@) =~= before.push(trim(e@)));
        },
    }
    true
}


/// Reads a stash text against the catalogue: every entry of every line (text after `#` is
/// a comment), recognised codes added up per colour, unknown entries kept. `None` where the
/// text cannot be read: an entry would be cut inside a character, or the total of the
/// quantities does not fit in a `u32`.
pub fn try_parse_stash(colors: &[DmcColor], input: &str) -> (r: Option<StashParseResult>)
    ensures
        r is Some <==> stash_parse_sound(records(colors@), input@),
        r matches Some(res) ==> res.reads(records(colors@), input@),
{
    let ghost rs = records(colors@);
    let ghost full = stash_entries(input@);
    let chars = chars_of(input);
    let ls = lines_of(chars.as_slice());
    let ghost lv = views(ls@);
    let mut quantities: HashMap<usize, u32> = HashMap::new();
    let mut order: Vec<usize> = Vec::new();
    let mut unknown: Vec<Vec<char>> = Vec::new();
    let ghost mut done: Seq<Seq<char>> = seq![];
    let hash = ['#'];
    assert(hash@ =~= seq!['#']);
    assert(lv.take(0) =~= Seq::<Seq<char>>::empty());
    assert(views(unknown@) =~= Seq::<Seq<char>>::empty());
    assert(quantities@ =~= Map::<usize, u32>::empty());
    let mut li: usize = 0;
    while li < ls.len()
        invariant
            li <= ls@.len(),
            lv == views(ls@),
            lv == lines(input@),
            full == lines_entries(lv),
            rs == records(colors@),
            hash@ == seq!['#'],
            done == lines_entries(lv.take(li as int)),
            state_of(quantities@, order@, unknown@) == tally(rs, done),
            tally_wf(state_of(quantities@, order@, unknown@), colors@.len()),
            forall|k: int| 0 <= k < done.len() ==> stash_entry_sound(trim(#[trigger] done[k])),
        decreases ls@.len() - li,
    {
        let pieces = split_chars(ls[li].as_slice(), hash.as_slice());
        proof {
            crate::text::lemma_split_any_nonempty(ls@[li as int]@, seq!['#']);
        }
        let line = trim_chars(pieces[0].as_slice());
        assert(line@ == without_comment(lv[li as int]));
        assert(lv.take(li + 1).drop_last() =~= lv.take(li as int));
        assert(lv.take(li + 1).last() == lv[li as int]);
        if line.len() > 0 {
            let es = line_entries_of(line.as_slice());
            let ghost base = done;
            let mut ei: usize = 0;
            assert(views(es@).take(0) =~= Seq::<Seq<char>>::empty());
            assert(base + views(es@).take(0) =~= base);
            while ei < es.len()
                invariant
                    ei <= es@.len(),
                    base == lines_entries(lv.take(li as int)),
                    views(es@) == line_stash_entries(lv[li as int]),
                    li < ls@.len(),
                    lv == views(ls@),
                    lv == lines(input@),
                    full == lines_entries(lv),
                    rs == records(colors@),
                    done == base + views(es@).take(ei as int),
                    state_of(quantities@, order@, unknown@) == tally(rs, done),
                    tally_wf(state_of(quantities@, order@, unknown@), colors@.len()),
                    forall|k: int| 0 <= k < done.len() ==> stash_entry_sound(trim(#[trigger] done[k])),
                decreases es@.len() - ei,
            {
                let ghost e = es@[ei as int]@;
                let ok = tally_entry_exec(colors, &mut quantities, &mut order, &mut unknown, es[ei].as_slice());
                if !ok {
                    proof {
                        lemma_lines_entries_prefix(lv, li + 1);
                        let upto = lines_entries(lv.take(li + 1));
                        assert(lv.take(li + 1).drop_last() =~= lv.take(li as int));
                        assert(lv.take(li + 1).last() == lv[li as int]);
                        assert(upto =~= base + views(es@));
                        assert(full.take(upto.len() as int) == upto);
                        assert(full[done.len() as int] == upto[done.len() as int]);
                        assert(upto[done.len() as int] == e);
                    }
                    return None;
                }
                proof {
                    let next = done.push(e);
                    assert(next.drop_last() =~= done);
                    assert(views(es@).take(ei + 1) =~= views(es@).take(ei as int).push(e));
                    done = next;
                }
                ei += 1;
            }
            assert(views(es@).take(es@.len() as int) =~= views(es@));
        } else {
            assert(line_stash_entries(lv[li as int]) =~= Seq::<Seq<char>>::empty());
            assert(done + Seq::<Seq<char>>::empty() =~= done);
        }
        li += 1;
    }
    assert(lv.take(lv.len() as int) =~= lv);
    assert(done == full);
    let ghost t = tally(rs, full);
    let mut total: u64 = 0;
    let mut j: usize = 0;
    assert(order@.take(0) =~= Seq::<usize>::empty());
    while j < order.len()
        invariant
            j <= order@.len(),
            rs == records(colors@),
            full == stash_entries(input@),
            t == tally(rs, full),
            state_of(quantities@, order@, unknown@) == t,
            tally_wf(t, colors@.len()),
            total == sum_quantities(quantities@, order@.take(j as int)),
            total <= u32::MAX,
        decreases order@.len() - j,
    {
        assert(order@.take(j + 1).drop_last() =~= order@.take(j as int));
        assert(quantities@.contains_key(order@[j as int]));
        let q: u32 = match quantities.get(&order[j]) {
            Some(v) => *v,
            None => 0,
        };
        total = total + q as u64;
        if total > 0xFFFF_FFFF {
            proof {
                lemma_sum_quantities_prefix(quantities@, order@, j + 1);
                assert(stash_total(t) > u32::MAX);
            }
            return None;
        }
        j += 1;
    }
    assert(order@.take(order@.len() as int) =~= order@);
    let total_skeins = total as u32;

    let mut indexes: HashSet<usize> = HashSet::new();
    let mut recognized: Vec<Vec<char>> = Vec::new();
    let mut k: usize = 0;
    assert(recognized_texts(rs, t).take(0) =~= Seq::<Seq<char>>::empty());
    assert(views(recognized@) =~= Seq::<Seq<char>>::empty());
    while k < order.len()
        invariant
            k <= order@.len(),
            rs == records(colors@),
            state_of(quantities@, order@, unknown@) == t,
            tally_wf(t, colors@.len()),
            forall|x: usize| indexes@.contains(x) <==> exists|m: int| 0 <= m < k && #[trigger] order@[m] == x,
            views(recognized@) == recognized_texts(rs, t).take(k as int),
        decreases order@.len() - k,
    {
        let index = order[k];
        assert(order@[k as int] < colors@.len());
        let ghost before = indexes@;
        indexes.insert(index);
        assert forall|x: usize| indexes@.contains(x) <==> exists|m: int| 0 <= m < k + 1 && #[trigger] order@[m] == x by {
            if x == index {
                assert(order@[k as int] == x);
            }
        }
        let q: u32 = match quantities.get(&index) {
            Some(v) => *v,
            None => 0,
        };
        let mut text = chars_of(colors[index].code.as_str());
        assert(rs[index as int] == colors@[index as int]@);
        text.push(' ');
        text.push('x');
        push_decimal(&mut text, q as u64);
        let ghost prev = views(recognized@);
        let ghost tv = text@;
        recognized.push(text);
        proof {
            assert(tv =~= owned_text(rs[index as int].code, t.quantities[index]));
            assert(views(recognized@) =~= prev.push(tv));
            assert(recognized_texts(rs, t).take(k + 1) =~= recognized_texts(rs, t).take(k as int).push(tv));
        }
        k += 1;
    }
    assert(recognized_texts(rs, t).take(order@.len() as int) =~= recognized_texts(rs, t));
    assert(indexes@ =~= quantities@.dom()) by {
        assert forall|x: usize| indexes@.contains(x) <==> quantities@.contains_key(x) by {
            if quantities@.contains_key(x) {
                assert(order@.contains(x));
                let m = choose|m: int| 0 <= m < order@.len() && order@[m] == x;
                assert(order@[m] == x);
            }
        }
    }
    assert(total_skeins == stash_total(t));
    assert(stash_parse_sound(rs, input@));
    let sorted_recognized = sort_texts(&recognized);
    let sorted_unknown = sort_texts(&unknown);
    let recognized_codes = strings_of(&sorted_recognized);
    let unknown_codes = strings_of(&sorted_unknown);
    Some(StashParseResult { indexes, quantities, recognized_codes, unknown_codes, total_skeins })
}

/// Reads a stash text against the catalogue, where it can be read: see `try_parse_stash`.
pub fn parse_stash(colors: &[DmcColor], input: &str) -> (r: StashParseResult)
    requires
        stash_parse_sound(records(colors@), input@),
    ensures
        r.reads(records(colors@), input@),
{
    try_parse_stash(colors, input).unwrap()
}

} // verus!
