//! The DMC colour catalogue: its rows, their hex colours, and lookup by code.

use vstd::prelude::*;

use crate::code::{normalize_code, normalized};
use crate::text::{
    byte_len, char_utf8_len, chars_eq, chars_of, is_char_boundary, lemma_byte_len_take_mono,
    lemma_split_any_nonempty, lines, lines_of, split_any, split_chars, string_of, strip_prefixes,
    strip_prefixes_chars, trim, trim_chars, unsigned_digits, utf8_len, views,
};

verus! {

/// One colour of the catalogue.
#[derive(Debug)]
pub struct DmcColor {
    pub code: String,
    pub name: String,
    pub hex: String,
    pub rgb: (u8, u8, u8),
}

/// What a catalogue colour holds.
pub ghost struct ColorRecord {
    pub code: Seq<char>,
    pub name: Seq<char>,
    pub hex: Seq<char>,
    pub rgb: (u8, u8, u8),
}

impl View for DmcColor {
    type V = ColorRecord;

    open spec fn view(&self) -> ColorRecord {
        ColorRecord { code: self.code@, name: self.name@, hex: self.hex@, rgb: self.rgb }
    }
}

impl Clone for DmcColor {
    fn clone(&self) -> (r: Self)
        ensures
            r@ == self@,
    {
        DmcColor {
            code: self.code.clone(),
            name: self.name.clone(),
            hex: self.hex.clone(),
            rgb: self.rgb,
        }
    }
}

/// The value of a hexadecimal digit.
pub open spec fn hex_digit_value(c: char) -> Option<nat> {
    let u = c as u32;
    if '0' as u32 <= u <= '9' as u32 {
        Some((u - '0' as u32) as nat)
    } else if 'a' as u32 <= u <= 'f' as u32 {
        Some((u - 'a' as u32 + 10) as nat)
    } else if 'A' as u32 <= u <= 'F' as u32 {
        Some((u - 'A' as u32 + 10) as nat)
    } else {
        None
    }
}

/// The number that the hexadecimal digits `d` spell, if they all are hexadecimal digits.
pub open spec fn hex_value(d: Seq<char>) -> Option<nat>
    decreases d.len(),
{
    if d.len() == 0 {
        Some(0)
    } else {
        match (hex_value(d.drop_last()), hex_digit_value(d.last())) {
            (Some(a), Some(b)) => Some(a * 16 + b),
            _ => None,
        }
    }
}

/// What `u8::from_str_radix(p, 16)` gives: an optional `'+'`, then at least one hexadecimal
/// digit, with a value below 256.
pub open spec fn parse_hex_u8(p: Seq<char>) -> Option<u8> {
    let d = unsigned_digits(p);
    if d.len() == 0 {
        None
    } else {
        match hex_value(d) {
            Some(v) => if v <= 255 {
                Some(v as u8)
            } else {
                None
            },
            None => None,
        }
    }
}

/// The digits of a hex colour: trimmed, with leading `'#'`s removed.
pub open spec fn hex_digits(hex: Seq<char>) -> Seq<char> {
    strip_prefixes(trim(hex), seq!['#'])
}

/// The colour that a hex text such as `#FF00AA` spells: six characters after the `'#'`, read
/// in pairs.
pub open spec fn hex_rgb(hex: Seq<char>) -> Option<(u8, u8, u8)> {
    let h = hex_digits(hex);
    if h.len() != 6 {
        None
    } else {
        match (
            parse_hex_u8(h.subrange(0, 2)),
            parse_hex_u8(h.subrange(2, 4)),
            parse_hex_u8(h.subrange(4, 6)),
        ) {
            (Some(r), Some(g), Some(b)) => Some((r, g, b)),
            _ => None,
        }
    }
}

/// The hexadecimal digit for `d < 16`, in upper or lower case.
pub open spec fn hex_char(d: nat, upper: bool) -> char {
    if d == 0 {
        '0'
    } else if d == 1 {
        '1'
    } else if d == 2 {
        '2'
    } else if d == 3 {
        '3'
    } else if d == 4 {
        '4'
    } else if d == 5 {
        '5'
    } else if d == 6 {
        '6'
    } else if d == 7 {
        '7'
    } else if d == 8 {
        '8'
    } else if d == 9 {
        '9'
    } else if d == 10 {
        if upper { 'A' } else { 'a' }
    } else if d == 11 {
        if upper { 'B' } else { 'b' }
    } else if d == 12 {
        if upper { 'C' } else { 'c' }
    } else if d == 13 {
        if upper { 'D' } else { 'd' }
    } else if d == 14 {
        if upper { 'E' } else { 'e' }
    } else {
        if upper { 'F' } else { 'f' }
    }
}

/// The two hexadecimal digits of a byte, as `{:02X}` (upper) or `{:02x}` formats it.
pub open spec fn hex_pair(v: u8, upper: bool) -> Seq<char> {
    seq![hex_char(v as nat / 16, upper), hex_char(v as nat % 16, upper)]
}

/// The six hexadecimal digits of a colour.
pub open spec fn hex_text(rgb: (u8, u8, u8), upper: bool) -> Seq<char> {
    hex_pair(rgb.0, upper) + hex_pair(rgb.1, upper) + hex_pair(rgb.2, upper)
}

/// The hex digits can be cut into byte pairs: where they take six bytes in UTF-8, the second
/// and fourth byte end a character.
pub open spec fn hex_sliceable(hex: Seq<char>) -> bool {
    let h = hex_digits(hex);
    byte_len(h) == 6 ==> is_char_boundary(h, 2) && is_char_boundary(h, 4)
}

pub proof fn lemma_hex_value_single(c: char)
    ensures
        hex_value(seq![c]) == match hex_digit_value(c) {
            Some(v) => Some(v),
            None => None::<nat>,
        },
{
    let s = seq![c];
    assert(s.drop_last() =~= Seq::<char>::empty());
    assert(s.last() == c);
    assert(hex_value(Seq::<char>::empty()) == Some(0nat));
}

fn hex_digit(c: char) -> (r: Option<u32>)
    ensures
        r matches Some(v) ==> hex_digit_value(c) == Some(v as nat) && v < 16,
        r is None ==> hex_digit_value(c) is None,
{
    if '0' <= c && c <= '9' {
        Some(c as u32 - '0' as u32)
    } else if 'a' <= c && c <= 'f' {
        Some(c as u32 - 'a' as u32 + 10)
    } else if 'A' <= c && c <= 'F' {
        Some(c as u32 - 'A' as u32 + 10)
    } else {
        None
    }
}

fn parse_hex_pair(h: &[char], at: usize) -> (r: Option<u8>)
    requires
        at + 2 <= h@.len(),
    ensures
        r == parse_hex_u8(h@.subrange(at as int, at + 2)),
{
    let ghost p = h@.subrange(at as int, at + 2);
    assert(p[0] == h@[at as int] && p[1] == h@[at + 1]);
    if h[at] == '+' {
        assert(unsigned_digits(p) =~= seq![h@[at + 1]]);
        assert(seq![h@[at + 1]].drop_last() =~= Seq::<char>::empty());
        match hex_digit(h[at + 1]) {
            Some(v) => {
                proof {
                    lemma_hex_value_single(h@[at + 1]);
                }
                Some(v as u8)
            },
            None => None,
        }
    } else {
        assert(unsigned_digits(p) =~= p);
        assert(p.drop_last() =~= seq![h@[at as int]]);
        assert(seq![h@[at as int]].drop_last() =~= Seq::<char>::empty());
        assert(p.last() == h@[at + 1]);
        match (hex_digit(h[at]), hex_digit(h[at + 1])) {
            (Some(a), Some(b)) => {
                proof {
                    lemma_hex_value_single(h@[at as int]);
                }
                assert(hex_value(p) == Some((a * 16 + b) as nat));
                Some((a * 16 + b) as u8)
            },
            _ => None,
        }
    }
}

fn hex_digits_of(hex: &str) -> (h: Vec<char>)
    ensures
        h@ == hex_digits(hex@),
{
    let chars = chars_of(hex);
    let trimmed = trim_chars(chars.as_slice());
    let hash = ['#'];
    assert(hash@ =~= seq!['#']);
    strip_prefixes_chars(trimmed.as_slice(), hash.as_slice())
}

/// The colour that a hex text such as `#FF00AA` spells.
pub fn hex_to_rgb(hex: &str) -> (r: Option<(u8, u8, u8)>)
    requires
        hex_sliceable(hex@),
    ensures
        r == hex_rgb(hex@),
{
    let h = hex_digits_of(hex);
    if h.len() != 6 {
        return None;
    }
    let r = parse_hex_pair(h.as_slice(), 0);
    let g = parse_hex_pair(h.as_slice(), 2);
    let b = parse_hex_pair(h.as_slice(), 4);
    match (r, g, b) {
        (Some(r), Some(g), Some(b)) => Some((r, g, b)),
        _ => None,
    }
}

/// Whether the hex digits of `hex` can be cut into byte pairs.
pub fn hex_is_sliceable(hex: &str) -> (b: bool)
    ensures
        b == hex_sliceable(hex@),
{
    let h = hex_digits_of(hex);
    let n = h.len();
    let mut acc: usize = 0;
    let mut k: usize = 0;
    let mut found2 = false;
    let mut found4 = false;
    assert(h@.take(0) =~= Seq::<char>::empty());
    while k < n && acc <= 6
        invariant
            k <= n == h@.len(),
            acc == byte_len(h@.take(k as int)),
            acc <= 10,
            found2 ==> is_char_boundary(h@, 2),
            found4 ==> is_char_boundary(h@, 4),
            !found2 ==> forall|j: int| 0 <= j < k ==> byte_len(#[trigger] h@.take(j)) != 2,
            !found4 ==> forall|j: int| 0 <= j < k ==> byte_len(#[trigger] h@.take(j)) != 4,
        decreases n - k,
    {
        if acc == 2 {
            found2 = true;
        }
        if acc == 4 {
            found4 = true;
        }
        assert(h@.take(k + 1).drop_last() =~= h@.take(k as int));
        acc = acc + char_utf8_len(h[k]);
        k += 1;
    }
    assert(h@.take(n as int) =~= h@);
    if acc > 6 {
        proof {
            lemma_byte_len_take_mono(h@, k as int, n as int);
        }
        return true;
    }
    if acc == 2 {
        found2 = true;
    }
    if acc == 4 {
        found4 = true;
    }
    if acc != 6 {
        return true;
    }
    assert(k == n);
    proof {
        if !found2 {
            assert forall|j: int| 0 <= j <= h@.len() implies byte_len(#[trigger] h@.take(j)) != 2 by {
            }
        }
        if !found4 {
            assert forall|j: int| 0 <= j <= h@.len() implies byte_len(#[trigger] h@.take(j)) != 4 by {
            }
        }
    }
    found2 && found4
}


/// What a sequence of colours holds.
pub open spec fn records(v: Seq<DmcColor>) -> Seq<ColorRecord> {
    v.map_values(|c: DmcColor| c@)
}

/// The colour that a catalogue row `code,name,hex` describes, if it has three fields and a
/// readable hex colour.
pub open spec fn parse_row(line: Seq<char>) -> Option<ColorRecord> {
    let parts = split_any(line, seq![',']);
    if parts.len() != 3 {
        None
    } else {
        match hex_rgb(trim(parts[2])) {
            Some(rgb) => Some(
                ColorRecord { code: trim(parts[0]), name: trim(parts[1]), hex: trim(parts[2]), rgb },
            ),
            None => None,
        }
    }
}

/// The colours of the rows `ls`, blank and unreadable rows skipped.
pub open spec fn rows_of(ls: Seq<Seq<char>>) -> Seq<ColorRecord>
    decreases ls.len(),
{
    if ls.len() == 0 {
        seq![]
    } else {
        let init = rows_of(ls.drop_last());
        let l = ls.last();
        if trim(l).len() == 0 {
            init
        } else {
            match parse_row(l) {
                Some(r) => init.push(r),
                None => init,
            }
        }
    }
}

/// The colours of a catalogue text: every line after the header that is a readable row.
pub open spec fn catalog(csv: Seq<char>) -> Seq<ColorRecord> {
    let ls = lines(csv);
    if ls.len() == 0 {
        seq![]
    } else {
        rows_of(ls.drop_first())
    }
}

/// A row whose hex field, if it is read, can be cut into byte pairs.
pub open spec fn row_sliceable(line: Seq<char>) -> bool {
    let parts = split_any(line, seq![',']);
    trim(line).len() == 0 || parts.len() != 3 || hex_sliceable(trim(parts[2]))
}

/// Every row of a catalogue text after the header is a `row_sliceable` one.
pub open spec fn catalog_sliceable(csv: Seq<char>) -> bool {
    forall|i: int| 1 <= i < lines(csv).len() ==> row_sliceable(#[trigger] lines(csv)[i])
}

/// Reads the colours of a catalogue text: a header line, then one `code,name,hex` row per
/// colour; blank rows, rows without three fields and rows without a readable hex colour are
/// skipped.
pub fn load_colors(csv: &str) -> (colors: Vec<DmcColor>)
    requires
        catalog_sliceable(csv@),
    ensures
        records(colors@) == catalog(csv@),
{
    let chars = chars_of(csv);
    let ls = lines_of(chars.as_slice());
    let mut colors: Vec<DmcColor> = Vec::new();
    if ls.len() == 0 {
        assert(records(colors@) =~= Seq::<ColorRecord>::empty());
        return colors;
    }
    let ghost all = views(ls@);
    let comma = [','];
    assert(comma@ =~= seq![',']);
    let mut i: usize = 1;
    assert(all.subrange(1, 1) =~= Seq::<Seq<char>>::empty());
    assert(records(colors@) =~= Seq::<ColorRecord>::empty());
    while i < ls.len()
        invariant
            1 <= i <= ls@.len(),
            all == views(ls@),
            all == lines(csv@),
            comma@ == seq![','],
            catalog_sliceable(csv@),
            records(colors@) == rows_of(all.subrange(1, i as int)),
        decreases ls@.len() - i,
    {
        let line = ls[i].as_slice();
        assert(line@ == all[i as int]);
        assert(all.subrange(1, i + 1).drop_last() =~= all.subrange(1, i as int));
        assert(all.subrange(1, i + 1).last() == all[i as int]);
        assert(row_sliceable(all[i as int]));
        let trimmed = trim_chars(line);
        if trimmed.len() > 0 {
            let parts = split_chars(line, comma.as_slice());
            if parts.len() == 3 {
                assert(parts[0]@ == split_any(line@, seq![','])[0]);
                assert(parts[1]@ == split_any(line@, seq![','])[1]);
                assert(parts[2]@ == split_any(line@, seq![','])[2]);
                let code = string_of(trim_chars(parts[0].as_slice()).as_slice());
                let name = string_of(trim_chars(parts[1].as_slice()).as_slice());
                let hex = string_of(trim_chars(parts[2].as_slice()).as_slice());
                match hex_to_rgb(hex.as_str()) {
                    Some(rgb) => {
                        let ghost before = records(colors@);
                        colors.push(DmcColor { code, name, hex, rgb });
                        assert(records(colors@) =~= before.push(colors@.last()@));
                    },
                    None => {},
                }
            }
        }
        i += 1;
    }
    assert(all.subrange(1, all.len() as int) =~= all.drop_first());
    colors
}

/// The position of the first colour whose code reads as `wanted` after normalising.
pub open spec fn first_with_code(rs: Seq<ColorRecord>, wanted: Seq<char>) -> Option<int>
    decreases rs.len(),
{
    if rs.len() == 0 {
        None
    } else {
        match first_with_code(rs.drop_last(), wanted) {
            Some(i) => Some(i),
            None => if normalized(rs.last().code) == wanted {
                Some(rs.len() - 1)
            } else {
                None
            },
        }
    }
}

pub proof fn lemma_first_with_code(rs: Seq<ColorRecord>, wanted: Seq<char>)
    ensures
        match first_with_code(rs, wanted) {
            Some(i) => 0 <= i < rs.len() && normalized(rs[i].code) == wanted && forall|j: int|
                0 <= j < i ==> normalized(#[trigger] rs[j].code) != wanted,
            None => forall|j: int| 0 <= j < rs.len() ==> normalized(#[trigger] rs[j].code) != wanted,
        },
    decreases rs.len(),
{
    if rs.len() > 0 {
        let init = rs.drop_last();
        lemma_first_with_code(init, wanted);
        match first_with_code(init, wanted) {
            Some(i) => {
                assert(rs[i] == init[i]);
                assert forall|j: int| 0 <= j < i implies normalized(#[trigger] rs[j].code) != wanted by {
                    assert(rs[j] == init[j]);
                }
            },
            None => {
                assert forall|j: int| 0 <= j < rs.len() - 1 implies normalized(#[trigger] rs[j].code) != wanted by {
                    assert(rs[j] == init[j]);
                }
            },
        }
    }
}

/// The position of the first colour whose code is `code`, compared in normalised form.
pub fn find_color_index(colors: &[DmcColor], code: &str) -> (r: Option<usize>)
    ensures
        r matches Some(i) ==> first_with_code(records(colors@), normalized(code@)) == Some(i as int),
        r is None ==> first_with_code(records(colors@), normalized(code@)) is None,
{
    let wanted = normalize_code(code);
    let wanted_chars = chars_of(wanted.as_str());
    let ghost rs = records(colors@);
    let mut i: usize = 0;
    assert(rs.take(0) =~= Seq::<ColorRecord>::empty());
    while i < colors.len()
        invariant
            i <= colors@.len(),
            rs == records(colors@),
            wanted_chars@ == normalized(code@),
            first_with_code(rs.take(i as int), normalized(code@)) is None,
        decreases colors@.len() - i,
    {
        let candidate = normalize_code(colors[i].code.as_str());
        let candidate_chars = chars_of(candidate.as_str());
        assert(rs.take(i + 1).drop_last() =~= rs.take(i as int));
        assert(rs.take(i + 1).last() == colors@[i as int]@);
        if chars_eq(candidate_chars.as_slice(), wanted_chars.as_slice()) {
            proof {
                lemma_first_with_code_prefix(rs, normalized(code@), i + 1);
            }
            return Some(i);
        }
        i += 1;
    }
    assert(rs.take(rs.len() as int) =~= rs);
    None
}

/// A match found in a prefix is the match in the whole sequence.
pub proof fn lemma_first_with_code_prefix(rs: Seq<ColorRecord>, wanted: Seq<char>, k: int)
    requires
        0 <= k <= rs.len(),
        first_with_code(rs.take(k), wanted) is Some,
    ensures
        first_with_code(rs, wanted) == first_with_code(rs.take(k), wanted),
    decreases rs.len() - k,
{
    if k < rs.len() {
        assert(rs.take(k + 1).drop_last() =~= rs.take(k));
        lemma_first_with_code_prefix(rs, wanted, k + 1);
    } else {
        assert(rs.take(k) =~= rs);
    }
}


/// Whether every row of a catalogue text can be read without cutting a character apart, which
/// `load_colors` asks of its input.
pub fn catalog_is_sliceable(csv: &str) -> (b: bool)
    ensures
        b == catalog_sliceable(csv@),
{
    let chars = chars_of(csv);
    let ls = lines_of(chars.as_slice());
    let ghost all = views(ls@);
    let comma = [','];
    assert(comma@ =~= seq![',']);
    let mut i: usize = 1;
    while i < ls.len()
        invariant
            1 <= i,
            all == views(ls@),
            all == lines(csv@),
            comma@ == seq![','],
            forall|j: int| 1 <= j < i && j < all.len() ==> row_sliceable(#[trigger] all[j]),
        decreases ls@.len() - i,
    {
        let line = ls[i].as_slice();
        assert(line@ == all[i as int]);
        let trimmed = trim_chars(line);
        if trimmed.len() > 0 {
            let parts = split_chars(line, comma.as_slice());
            if parts.len() == 3 {
                assert(parts[2]@ == split_any(line@, seq![','])[2]);
                let hex = string_of(trim_chars(parts[2].as_slice()).as_slice());
                if !hex_is_sliceable(hex.as_str()) {
                    assert(!row_sliceable(all[i as int]));
                    return false;
                }
            }
        }
        i += 1;
    }
    true
}

} // verus!
