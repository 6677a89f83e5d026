//! How the catalogue text and a FlossKeeper collection are read line by line: every line
//! counts, the last one too, whether or not a line break ends the text.

use vstd::prelude::*;

use crate::code_laws::lemma_trim_shape;
use crate::color::{catalog, hex_rgb, parse_row, rows_of, ColorRecord};
use crate::flosskeeper::{count_or_zero, flosskeeper_line, flosskeeper_lines, flosskeeper_text};
use crate::stash::{owned_text, sat_add};
use crate::laws::{
    lemma_digit_char_not_marker, lemma_split_without_separators, lemma_trim_of_unpadded,
    lemma_words_after_space, lemma_words_of_word,
};
use crate::stash_laws::{lemma_split_join, lemma_trim_push_ws};
use crate::text::{
    decimal, is_digit, is_ws, join, lemma_decimal_digits, lemma_split_any_nonempty, words, lines, split_any, strip_cr, strip_crs, trim, trim_end,
    trim_start,
};

verus! {

/// The lines of two texts joined by a line break: those of the first, each with a final
/// carriage return dropped and an empty last one kept, then those of the second.
proof fn lemma_lines_join(a: Seq<char>, b: Seq<char>)
    ensures
        split_any(a, seq!['\n']).len() >= 1,
        lines(a + seq!['\n'] + b) == strip_crs(split_any(a, seq!['\n'])) + lines(b),
        strip_crs(split_any(a, seq!['\n'])) == strip_crs(split_any(a, seq!['\n']).drop_last()).push(
            strip_cr(split_any(a, seq!['\n']).last()),
        ),
        lines(a) == (if split_any(a, seq!['\n']).last().len() == 0 {
            strip_crs(split_any(a, seq!['\n']).drop_last())
        } else {
            strip_crs(split_any(a, seq!['\n']).drop_last()).push(split_any(a, seq!['\n']).last())
        }),
{
    let nl = seq!['\n'];
    let pa = split_any(a, nl);
    let pb = split_any(b, nl);
    lemma_split_join(a, b, '\n');
    lemma_split_any_nonempty(a, nl);
    lemma_split_any_nonempty(b, nl);
    let p = pa + pb;
    assert(p.drop_last() =~= pa + pb.drop_last());
    assert(p.last() == pb.last());
    assert(strip_crs(pa + pb.drop_last()) =~= strip_crs(pa) + strip_crs(pb.drop_last()));
    if pb.last().len() == 0 {
        assert(lines(a + nl + b) =~= strip_crs(pa) + lines(b));
    } else {
        assert(lines(a + nl + b) =~= strip_crs(pa) + lines(b));
    }
    assert(strip_crs(pa) =~= strip_crs(pa.drop_last()).push(strip_cr(pa.last())));
}

/// A text without a line break is one line (none where it is empty).
proof fn lemma_lines_of_one_line(r: Seq<char>)
    requires
        forall|i: int| 0 <= i < r.len() ==> r[i] != '\n',
    ensures
        lines(r) == (if r.len() == 0 {
            Seq::<Seq<char>>::empty()
        } else {
            seq![r]
        }),
{
    let nl = seq!['\n'];
    assert forall|i: int| 0 <= i < r.len() implies !nl.contains(#[trigger] r[i]) by {
        if nl.contains(r[i]) {
            let k = choose|k: int| 0 <= k < nl.len() && nl[k] == r[i];
        }
    }
    lemma_split_without_separators(r, nl);
    assert(seq![r].drop_last() =~= Seq::<Seq<char>>::empty());
    assert(strip_crs(Seq::<Seq<char>>::empty()) =~= Seq::<Seq<char>>::empty());
    if r.len() > 0 {
        assert(Seq::<Seq<char>>::empty().push(r) =~= seq![r]);
    }
}

proof fn lemma_trim_start_empty(l: Seq<char>)
    requires
        trim_start(l).len() == 0,
    ensures
        forall|i: int| 0 <= i < l.len() ==> is_ws(#[trigger] l[i]),
    decreases l.len(),
{
    if l.len() > 0 {
        assert(is_ws(l[0]));
        lemma_trim_start_empty(l.drop_first());
        assert forall|i: int| 0 <= i < l.len() implies is_ws(#[trigger] l[i]) by {
            if i > 0 {
                assert(l[i] == l.drop_first()[i - 1]);
            }
        }
    }
}

proof fn lemma_trim_end_empty(l: Seq<char>)
    requires
        trim_end(l).len() == 0,
    ensures
        forall|i: int| 0 <= i < l.len() ==> is_ws(#[trigger] l[i]),
    decreases l.len(),
{
    if l.len() > 0 {
        assert(is_ws(l.last()));
        lemma_trim_end_empty(l.drop_last());
        assert forall|i: int| 0 <= i < l.len() implies is_ws(#[trigger] l[i]) by {
            if i < l.len() - 1 {
                assert(l[i] == l.drop_last()[i]);
            }
        }
    }
}

/// A line that trims to nothing is all whitespace.
proof fn lemma_blank_all_ws(l: Seq<char>)
    requires
        trim(l).len() == 0,
    ensures
        forall|i: int| 0 <= i < l.len() ==> is_ws(#[trigger] l[i]),
{
    let t = trim_start(l);
    lemma_trim_end_empty(t);
    lemma_trim_shape(l);
    if t.len() > 0 {
        assert(is_ws(t[0]));
    }
    lemma_trim_start_empty(l);
}

/// A line whose characters are all whitespace holds no comma-separated row.
proof fn lemma_blank_is_no_row(l: Seq<char>)
    requires
        trim(l).len() == 0,
    ensures
        parse_row(l) is None,
{
    let c = seq![','];
    assert forall|i: int| 0 <= i < l.len() implies !c.contains(#[trigger] l[i]) by {
        lemma_blank_all_ws(l);
        if c.contains(l[i]) {
            let k = choose|k: int| 0 <= k < c.len() && c[k] == l[i];
        }
    }
    lemma_split_without_separators(l, c);
}

/// A carriage return at the end of a catalogue line does not change the row it gives.
proof fn lemma_row_strip_cr(init: Seq<Seq<char>>, x: Seq<char>)
    ensures
        rows_of(init.push(strip_cr(x))) == (if x.len() == 0 {
            rows_of(init)
        } else {
            rows_of(init.push(x))
        }),
{
    assert(init.push(strip_cr(x)).drop_last() =~= init);
    assert(init.push(x).drop_last() =~= init);
    if x.len() == 0 {
        assert(trim(strip_cr(x)).len() == 0);
    } else if x.last() == '\r' {
        let y = x.drop_last();
        assert(y.push('\r') =~= x);
        lemma_trim_push_ws(y, '\r');
        let c = seq![','];
        let sp = split_any(y, c);
        lemma_split_any_nonempty(y, c);
        assert(!c.contains('\r')) by {
            if c.contains('\r') {
                let k = choose|k: int| 0 <= k < 1 && c[k] == '\r';
            }
        }
        assert(split_any(x, c) == sp.update(sp.len() - 1, sp.last().push('\r')));
        if sp.len() == 3 {
            lemma_trim_push_ws(sp[2], '\r');
            assert(split_any(x, c)[0] == sp[0]);
            assert(split_any(x, c)[1] == sp[1]);
        }
        assert(parse_row(x) == parse_row(y));
    }
}

/// The rows after the first line of `h.push(strip_cr(x))` give the catalogue of the lines
/// `h` followed by `x`, an empty `x` left out.
proof fn lemma_catalog_lines(h: Seq<Seq<char>>, x: Seq<char>)
    ensures
        ({
            let l = if x.len() == 0 {
                h
            } else {
                h.push(x)
            };
            rows_of(h.push(strip_cr(x)).drop_first()) == (if l.len() == 0 {
                Seq::<ColorRecord>::empty()
            } else {
                rows_of(l.drop_first())
            })
        }),
{
    if h.len() == 0 {
        assert(h.push(strip_cr(x)).drop_first() =~= Seq::<Seq<char>>::empty());
        if x.len() > 0 {
            assert(h.push(x).drop_first() =~= Seq::<Seq<char>>::empty());
        }
    } else {
        assert(h.push(strip_cr(x)).drop_first() =~= h.drop_first().push(strip_cr(x)));
        assert(h.push(x).drop_first() =~= h.drop_first().push(x));
        lemma_row_strip_cr(h.drop_first(), x);
    }
}

/// A final line break does not change the catalogue: the last row counts whether or not a
/// line break ends the text.
pub proof fn law_catalog_final_line_break(csv: Seq<char>)
    ensures
        catalog(csv + seq!['\n']) == catalog(csv),
{
    let nl = seq!['\n'];
    lemma_lines_join(csv, Seq::empty());
    assert(csv + nl + Seq::<char>::empty() =~= csv + nl);
    lemma_lines_of_one_line(Seq::empty());
    let p = split_any(csv, nl);
    assert(strip_crs(p) + Seq::<Seq<char>>::empty() =~= strip_crs(p));
    lemma_catalog_lines(strip_crs(p.drop_last()), p.last());
}

/// A catalogue text followed by a line break and one more line reads as the catalogue of the
/// text with that line's colour added at the end, where the line is a readable row, and as
/// the same catalogue where it is not.
pub proof fn law_catalog_added_line(csv: Seq<char>, row: Seq<char>)
    requires
        forall|i: int| 0 <= i < row.len() ==> row[i] != '\n',
    ensures
        catalog(csv + seq!['\n'] + row) == (match parse_row(row) {
            Some(rec) => catalog(csv).push(rec),
            None => catalog(csv),
        }),
{
    let nl = seq!['\n'];
    let p = split_any(csv, nl);
    lemma_lines_join(csv, row);
    lemma_lines_of_one_line(row);
    law_catalog_final_line_break(csv);
    lemma_lines_join(csv, Seq::empty());
    assert(csv + nl + Seq::<char>::empty() =~= csv + nl);
    lemma_lines_of_one_line(Seq::empty());
    let l = strip_crs(p);
    assert(l + Seq::<Seq<char>>::empty() =~= l);
    assert(l.len() >= 1);
    if row.len() == 0 {
        assert(l + Seq::<Seq<char>>::empty() =~= l);
        assert(csv + nl + row =~= csv + nl);
        assert(parse_row(row) is None) by {
            lemma_blank_is_no_row(row);
        }
    } else {
        assert(l + seq![row] =~= l.push(row));
        assert(l.push(row).drop_first() =~= l.drop_first().push(row));
        assert(l.drop_first().push(row).drop_last() =~= l.drop_first());
        if trim(row).len() == 0 {
            lemma_blank_is_no_row(row);
        }
    }
}

/// A row `code,name,hex` whose fields hold no comma and whose hex field spells a colour gives
/// that colour, with its fields trimmed.
pub proof fn law_catalog_row(code: Seq<char>, name: Seq<char>, hex: Seq<char>, rgb: (u8, u8, u8))
    requires
        !code.contains(','),
        !name.contains(','),
        !hex.contains(','),
        hex_rgb(trim(hex)) == Some(rgb),
    ensures
        parse_row(code + seq![','] + name + seq![','] + hex) == Some(
            ColorRecord { code: trim(code), name: trim(name), hex: trim(hex), rgb },
        ),
{
    let c = seq![','];
    assert forall|s: Seq<char>, i: int|
        !s.contains(',') && 0 <= i < s.len() implies !c.contains(#[trigger] s[i]) by {
        if c.contains(s[i]) {
            let k = choose|k: int| 0 <= k < c.len() && c[k] == s[i];
            assert(s.contains(','));
        }
    }
    lemma_split_without_separators(code, c);
    lemma_split_without_separators(name, c);
    lemma_split_without_separators(hex, c);
    lemma_split_join(code, name, ',');
    lemma_split_join(code + c + name, hex, ',');
    assert(split_any(code + c + name + c + hex, c) =~= seq![code, name, hex]);
}

proof fn lemma_flosskeeper_lines_concat(l1: Seq<Seq<char>>, l2: Seq<Seq<char>>)
    ensures
        flosskeeper_lines(l1 + l2) == flosskeeper_lines(l1) + flosskeeper_lines(l2),
    decreases l2.len(),
{
    if l2.len() == 0 {
        assert(l1 + l2 =~= l1);
        assert(flosskeeper_lines(l1) + flosskeeper_lines(l2) =~= flosskeeper_lines(l1));
    } else {
        lemma_flosskeeper_lines_concat(l1, l2.drop_last());
        assert((l1 + l2).drop_last() =~= l1 + l2.drop_last());
        assert((l1 + l2).last() == l2.last());
        match flosskeeper_line(l2.last()) {
            Some(s) => {
                assert((flosskeeper_lines(l1) + flosskeeper_lines(l2.drop_last())).push(s)
                    =~= flosskeeper_lines(l1) + flosskeeper_lines(l2.drop_last()).push(s));
            },
            None => {},
        }
    }
}

proof fn lemma_join_concat(a: Seq<Seq<char>>, b: Seq<Seq<char>>, sep: Seq<char>)
    requires
        a.len() > 0,
        b.len() > 0,
    ensures
        join(a + b, sep) == join(a, sep) + sep + join(b, sep),
    decreases b.len(),
{
    let ab = a + b;
    assert(ab.last() == b.last());
    if b.len() == 1 {
        assert(ab.drop_last() =~= a);
        assert(join(b, sep) == b[0]);
    } else {
        lemma_join_concat(a, b.drop_last(), sep);
        assert(ab.drop_last() =~= a + b.drop_last());
        assert(join(a, sep) + sep + join(b.drop_last(), sep) + sep + b.last() =~= join(a, sep) + sep
            + (join(b.drop_last(), sep) + sep + b.last()));
    }
}

/// The FlossKeeper import of two collection texts joined by a line break is the import of the
/// first followed by that of the second: every line counts, the last line of each too.
pub proof fn law_flosskeeper_joined(a: Seq<char>, b: Seq<char>)
    ensures
        flosskeeper_text(a + seq!['\n'] + b) == (match (flosskeeper_text(a), flosskeeper_text(b)) {
            (Some(x), Some(y)) => Some(x + y),
            (Some(x), None) => Some(x),
            (None, y) => y,
        }),
{
    let nl = seq!['\n'];
    let p = split_any(a, nl);
    lemma_lines_join(a, b);
    let h = strip_crs(p.drop_last());
    let x = p.last();
    lemma_flosskeeper_lines_concat(strip_crs(p), lines(b));
    assert(h.push(strip_cr(x)).drop_last() =~= h);
    assert(h.push(x).drop_last() =~= h);
    if x.len() > 0 && x.last() == '\r' {
        let y = x.drop_last();
        assert(y.push('\r') =~= x);
        lemma_trim_push_ws(y, '\r');
    }
    if x.len() == 0 {
        assert(trim(strip_cr(x)).len() == 0);
    }
    assert(flosskeeper_lines(strip_crs(p)) == flosskeeper_lines(lines(a)));
    let o1 = flosskeeper_lines(lines(a));
    let o2 = flosskeeper_lines(lines(b));
    if o1.len() > 0 && o2.len() > 0 {
        lemma_join_concat(o1, o2, nl);
        assert(join(o1 + o2, nl) + nl =~= (join(o1, nl) + nl) + (join(o2, nl) + nl));
    } else if o1.len() == 0 {
        assert(o1 + o2 =~= o2);
    } else {
        assert(o1 + o2 =~= o1);
    }
}

/// A final line break does not change the FlossKeeper import: the last line counts whether
/// or not a line break ends the text.
pub proof fn law_flosskeeper_final_line_break(s: Seq<char>)
    ensures
        flosskeeper_text(s + seq!['\n']) == flosskeeper_text(s),
{
    law_flosskeeper_joined(s, Seq::empty());
    assert(s + seq!['\n'] + Seq::<char>::empty() =~= s + seq!['\n']);
    lemma_lines_of_one_line(Seq::empty());
    assert(flosskeeper_lines(Seq::<Seq<char>>::empty()) =~= Seq::<Seq<char>>::empty());
}


/// The first line of a catalogue text is its header: a text of one line gives no colours.
pub proof fn law_catalog_header_only(h: Seq<char>)
    requires
        forall|i: int| 0 <= i < h.len() ==> h[i] != '\n',
    ensures
        catalog(h) == Seq::<ColorRecord>::empty(),
{
    lemma_lines_of_one_line(h);
    if h.len() > 0 {
        assert(seq![h].drop_first() =~= Seq::<Seq<char>>::empty());
    }
}

/// A FlossKeeper line `code bobbins skeins` with decimal counts imports as `code xN`, where
/// `N` is bobbins plus skeins (capped at `u32::MAX`), and as nothing where both are 0; the
/// code is one word that does not start with `#`.
pub proof fn law_flosskeeper_owned_line(code: Seq<char>, bobbins: u32, skeins: u32)
    requires
        code.len() > 0,
        code[0] != '#',
        forall|i: int| 0 <= i < code.len() ==> !is_ws(#[trigger] code[i]),
    ensures
        flosskeeper_text(
            code + seq![' '] + decimal(bobbins as nat) + seq![' '] + decimal(skeins as nat),
        ) == (if sat_add(bobbins, skeins) > 0 {
            Some(owned_text(code, sat_add(bobbins, skeins)) + seq!['\n'])
        } else {
            None
        }),
{
    let d1 = decimal(bobbins as nat);
    let d2 = decimal(skeins as nat);
    lemma_decimal_digits(bobbins as nat);
    lemma_decimal_digits(skeins as nat);
    assert forall|i: int| 0 <= i < d1.len() implies !is_ws(#[trigger] d1[i]) && d1[i] != '\n' by {
        lemma_digit_char_not_marker(d1[i]);
    }
    assert forall|i: int| 0 <= i < d2.len() implies !is_ws(#[trigger] d2[i]) && d2[i] != '\n' by {
        lemma_digit_char_not_marker(d2[i]);
    }
    let a = code.push(' ') + d1;
    let t = a.push(' ') + d2;
    assert(code + seq![' '] + d1 + seq![' '] + d2 =~= t);
    assert forall|i: int| 0 <= i < t.len() implies t[i] != '\n' by {
        if i < code.len() {
            assert(t[i] == code[i]);
        } else if code.len() < i < a.len() {
            assert(t[i] == d1[i - code.len() - 1]);
        } else if i > a.len() {
            assert(t[i] == d2[i - a.len() - 1]);
        }
    }
    lemma_lines_of_one_line(t);
    assert(seq![t].drop_last() =~= Seq::<Seq<char>>::empty());
    assert(t[0] == code[0]);
    assert(t.last() == d2.last());
    assert(is_digit(d2[d2.len() - 1]));
    lemma_trim_of_unpadded(t);
    lemma_words_of_word(code);
    lemma_words_after_space(code, d1, d1.len() as int);
    assert(d1.take(d1.len() as int) =~= d1);
    lemma_words_after_space(a, d2, d2.len() as int);
    assert(d2.take(d2.len() as int) =~= d2);
    assert(words(t) =~= seq![code, d1, d2]);
    assert(is_digit(d1[0]) && is_digit(d1[d1.len() - 1]) && is_digit(d2[0]));
    lemma_digit_char_not_marker(d1[0]);
    lemma_digit_char_not_marker(d1[d1.len() - 1]);
    lemma_digit_char_not_marker(d2[0]);
    lemma_trim_of_unpadded(d1);
    lemma_trim_of_unpadded(d2);
    assert(count_or_zero(d1) == bobbins);
    assert(count_or_zero(d2) == skeins);
    lemma_trim_of_unpadded(code);
    assert(trim(t) == t);
    assert(trim(code) == code);
    let total = sat_add(bobbins, skeins);
    assert(flosskeeper_line(t) == (if total > 0 {
        Some(owned_text(code, total))
    } else {
        None
    }));
    assert(lines(t) == seq![t]);
    assert(seq![t].last() == t);
    assert(flosskeeper_lines(Seq::<Seq<char>>::empty()) == Seq::<Seq<char>>::empty());
    if total > 0 {
        let x = owned_text(code, total);
        assert(Seq::<Seq<char>>::empty().push(x) =~= seq![x]);
        assert(flosskeeper_lines(seq![t]) == seq![x]);
        assert(join(seq![x], seq!['\n']) == x);
    } else {
        assert(flosskeeper_lines(seq![t]) == Seq::<Seq<char>>::empty());
    }
}

} // verus!
