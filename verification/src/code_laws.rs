//! Properties of how codes are compared and read: what `normalize_code` and `extract_code`
//! give when applied to their own results, and what they ignore.

use vstd::prelude::*;

use crate::code::{code_part, extracted, name_separator, normalized};
use crate::text::{
    all_ascii, ascii_lower, ascii_lower_all, ascii_upper, ascii_upper_all, is_ascii_char, is_ws,
    find_seq, starts_with, trim, trim_end, trim_start, upper_case, without_spaces,
};

verus! {

proof fn lemma_ascii_case_char(c: char)
    ensures
        is_ws(ascii_upper(c)) == is_ws(c),
        is_ws(ascii_lower(c)) == is_ws(c),
        (ascii_upper(c) == ' ') == (c == ' '),
        ascii_upper(ascii_upper(c)) == ascii_upper(c),
        ascii_upper(ascii_lower(c)) == ascii_upper(c),
        is_ascii_char(c) ==> is_ascii_char(ascii_upper(c)),
        is_ascii_char(c) ==> is_ascii_char(ascii_lower(c)),
{
    let u = c as u32;
    if 97 <= u <= 122 {
        assert((((u - 32) as u32) as char) as u32 == u - 32);
    }
    if 65 <= u <= 90 {
        assert((((u + 32) as u32) as char) as u32 == u + 32);
    }
}

proof fn lemma_without_spaces_concat(a: Seq<char>, b: Seq<char>)
    ensures
        without_spaces(a + b) == without_spaces(a) + without_spaces(b),
    decreases b.len(),
{
    if b.len() == 0 {
        assert(a + b =~= a);
        assert(without_spaces(a) + without_spaces(b) =~= without_spaces(a));
    } else {
        lemma_without_spaces_concat(a, b.drop_last());
        assert((a + b).drop_last() =~= a + b.drop_last());
        assert((a + b).last() == b.last());
        if b.last() != ' ' {
            assert(without_spaces(a) + without_spaces(b) =~= (without_spaces(a) + without_spaces(
                b.drop_last(),
            )).push(b.last()));
        }
    }
}

proof fn lemma_without_spaces_shape(s: Seq<char>)
    ensures
        without_spaces(s).len() <= s.len(),
        forall|i: int| 0 <= i < without_spaces(s).len() ==> #[trigger] without_spaces(s)[i] != ' ',
        forall|i: int|
            0 <= i < without_spaces(s).len() ==> s.contains(#[trigger] without_spaces(s)[i]),
        (forall|i: int| 0 <= i < s.len() ==> #[trigger] s[i] != ' ') ==> without_spaces(s) == s,
    decreases s.len(),
{
    if s.len() > 0 {
        lemma_without_spaces_shape(s.drop_last());
        let w = without_spaces(s.drop_last());
        assert forall|i: int| 0 <= i < w.len() implies s.contains(#[trigger] w[i]) by {
            let j = choose|j: int| 0 <= j < s.drop_last().len() && s.drop_last()[j] == w[i];
            assert(s[j] == w[i]);
        }
        assert(s[s.len() - 1] == s.last());
        if forall|i: int| 0 <= i < s.len() ==> #[trigger] s[i] != ' ' {
            assert(forall|i: int|
                0 <= i < s.drop_last().len() ==> #[trigger] s.drop_last()[i] == s[i]);
            assert(s.drop_last().push(s.last()) =~= s);
        }
    } else {
        assert(s =~= Seq::<char>::empty());
    }
}

proof fn lemma_without_spaces_ascii(s: Seq<char>)
    requires
        all_ascii(s),
    ensures
        all_ascii(without_spaces(s)),
{
    lemma_without_spaces_shape(s);
    let w = without_spaces(s);
    assert forall|i: int| 0 <= i < w.len() implies is_ascii_char(#[trigger] w[i]) by {
        assert(s.contains(w[i]));
    }
}

proof fn lemma_without_spaces_twice(s: Seq<char>)
    ensures
        without_spaces(without_spaces(s)) == without_spaces(s),
{
    lemma_without_spaces_shape(s);
    lemma_without_spaces_shape(without_spaces(s));
}

proof fn lemma_trim_start_without_spaces(s: Seq<char>)
    ensures
        trim_start(without_spaces(s)) == without_spaces(trim_start(s)),
    decreases s.len(),
{
    if s.len() > 0 {
        let rest = s.drop_first();
        assert(s =~= seq![s[0]] + rest);
        lemma_without_spaces_concat(seq![s[0]], rest);
        assert(seq![s[0]].drop_last() =~= Seq::<char>::empty());
        assert(without_spaces(Seq::<char>::empty()) == Seq::<char>::empty());
        let w0 = without_spaces(seq![s[0]]);
        if s[0] == ' ' {
            assert(w0 == Seq::<char>::empty());
            assert(without_spaces(s) =~= without_spaces(rest));
        } else {
            assert(w0 =~= seq![s[0]]);
            assert(without_spaces(s) =~= seq![s[0]] + without_spaces(rest));
            assert((seq![s[0]] + without_spaces(rest)).drop_first() =~= without_spaces(rest));
        }
        if is_ws(s[0]) {
            lemma_trim_start_without_spaces(rest);
        }
    }
}

proof fn lemma_trim_end_without_spaces(s: Seq<char>)
    ensures
        trim_end(without_spaces(s)) == without_spaces(trim_end(s)),
    decreases s.len(),
{
    if s.len() > 0 {
        let dl = s.drop_last();
        if s.last() != ' ' {
            assert(without_spaces(s).drop_last() =~= without_spaces(dl));
        }
        if is_ws(s.last()) {
            lemma_trim_end_without_spaces(dl);
        }
    }
}

proof fn lemma_trim_without_spaces(s: Seq<char>)
    ensures
        trim(without_spaces(s)) == without_spaces(trim(s)),
{
    lemma_trim_start_without_spaces(s);
    lemma_trim_end_without_spaces(trim_start(s));
}

proof fn lemma_upper_without_spaces(s: Seq<char>)
    ensures
        ascii_upper_all(without_spaces(s)) == without_spaces(ascii_upper_all(s)),
    decreases s.len(),
{
    if s.len() > 0 {
        lemma_upper_without_spaces(s.drop_last());
        lemma_ascii_case_char(s.last());
        assert(ascii_upper_all(s).drop_last() =~= ascii_upper_all(s.drop_last()));
        assert(ascii_upper_all(s).last() == ascii_upper(s.last()));
        if s.last() != ' ' {
            assert(ascii_upper_all(without_spaces(s.drop_last()).push(s.last())) =~= ascii_upper_all(
                without_spaces(s.drop_last()),
            ).push(ascii_upper(s.last())));
        }
    } else {
        assert(ascii_upper_all(s) =~= s);
    }
}

proof fn lemma_trim_upper(s: Seq<char>)
    ensures
        trim_start(ascii_upper_all(s)) == ascii_upper_all(trim_start(s)),
        trim_end(ascii_upper_all(s)) == ascii_upper_all(trim_end(s)),
    decreases s.len(),
{
    if s.len() > 0 {
        lemma_trim_upper(s.drop_first());
        lemma_trim_upper(s.drop_last());
        lemma_ascii_case_char(s[0]);
        lemma_ascii_case_char(s.last());
        assert(ascii_upper_all(s).drop_first() =~= ascii_upper_all(s.drop_first()));
        assert(ascii_upper_all(s).drop_last() =~= ascii_upper_all(s.drop_last()));
    }
}

proof fn lemma_trim_lower(s: Seq<char>)
    ensures
        trim_start(ascii_lower_all(s)) == ascii_lower_all(trim_start(s)),
        trim_end(ascii_lower_all(s)) == ascii_lower_all(trim_end(s)),
    decreases s.len(),
{
    if s.len() > 0 {
        lemma_trim_lower(s.drop_first());
        lemma_trim_lower(s.drop_last());
        lemma_ascii_case_char(s[0]);
        lemma_ascii_case_char(s.last());
        assert(ascii_lower_all(s).drop_first() =~= ascii_lower_all(s.drop_first()));
        assert(ascii_lower_all(s).drop_last() =~= ascii_lower_all(s.drop_last()));
    }
}

proof fn lemma_case_maps(s: Seq<char>)
    ensures
        ascii_upper_all(ascii_upper_all(s)) == ascii_upper_all(s),
        ascii_upper_all(ascii_lower_all(s)) == ascii_upper_all(s),
        all_ascii(s) ==> all_ascii(ascii_upper_all(s)) && all_ascii(ascii_lower_all(s)),
        trim(ascii_upper_all(s)) == ascii_upper_all(trim(s)),
        trim(ascii_lower_all(s)) == ascii_lower_all(trim(s)),
{
    assert forall|i: int| 0 <= i < s.len() implies ascii_upper(ascii_upper(#[trigger] s[i]))
        == ascii_upper(s[i]) && ascii_upper(ascii_lower(s[i])) == ascii_upper(s[i]) && (
    is_ascii_char(s[i]) ==> is_ascii_char(ascii_upper(s[i])) && is_ascii_char(ascii_lower(s[i])))
        by {
        lemma_ascii_case_char(s[i]);
    }
    assert(ascii_upper_all(ascii_upper_all(s)) =~= ascii_upper_all(s));
    assert(ascii_upper_all(ascii_lower_all(s)) =~= ascii_upper_all(s));
    lemma_trim_upper(s);
    lemma_trim_upper(trim_start(s));
    lemma_trim_lower(s);
    lemma_trim_lower(trim_start(s));
}

pub(crate) proof fn lemma_trim_shape(s: Seq<char>)
    ensures
        trim_start(s).len() > 0 ==> !is_ws(trim_start(s)[0]),
        trim_end(s).len() > 0 ==> !is_ws(trim_end(s).last()),
        trim_start(s) == s.skip(s.len() - trim_start(s).len()),
        trim_end(s) == s.take(trim_end(s).len() as int),
        trim_start(s).len() <= s.len(),
        trim_end(s).len() <= s.len(),
    decreases s.len(),
{
    if s.len() > 0 {
        lemma_trim_shape(s.drop_first());
        lemma_trim_shape(s.drop_last());
        if is_ws(s[0]) {
            assert(s.drop_first().skip(s.drop_first().len() - trim_start(s).len()) =~= s.skip(
                s.len() - trim_start(s).len(),
            ));
        } else {
            assert(s.skip(0) =~= s);
        }
        if is_ws(s.last()) {
            assert(s.drop_last().take(trim_end(s).len() as int) =~= s.take(trim_end(s).len() as int));
        } else {
            assert(s.take(s.len() as int) =~= s);
        }
    } else {
        assert(s.skip(0) =~= s);
        assert(s.take(0) =~= s);
    }
}

proof fn lemma_trim_twice(s: Seq<char>)
    ensures
        trim(trim(s)) == trim(s),
        all_ascii(s) ==> all_ascii(trim(s)),
{
    let a = trim_start(s);
    let t = trim_end(a);
    lemma_trim_shape(s);
    lemma_trim_shape(a);
    lemma_trim_shape(t);
    if t.len() > 0 {
        assert(t[0] == a[0]);
        assert(trim_start(t) == t);
        assert(t.last() == t[t.len() - 1]);
    } else {
        assert(trim_start(t) == t);
    }
    assert forall|i: int| 0 <= i < t.len() implies #[trigger] t[i] == s[
        s.len() - a.len() + i] by {
        assert(t[i] == a[i]);
    }
}

/// A normalised code holds no space.
pub proof fn law_normalized_has_no_spaces(s: Seq<char>)
    ensures
        !normalized(s).contains(' '),
{
    lemma_without_spaces_shape(upper_case(trim(s)));
}

/// Normalising an ASCII code a second time changes nothing.
pub proof fn law_normalize_idempotent(s: Seq<char>)
    requires
        all_ascii(s),
    ensures
        normalized(normalized(s)) == normalized(s),
{
    let t = trim(s);
    lemma_trim_twice(s);
    lemma_case_maps(t);
    let u = ascii_upper_all(t);
    let n = without_spaces(u);
    assert(normalized(s) == n);
    lemma_without_spaces_ascii(u);
    lemma_trim_without_spaces(u);
    assert(trim(n) == n);
    lemma_upper_without_spaces(u);
    lemma_case_maps(u);
    assert(upper_case(trim(n)) == n);
    lemma_without_spaces_twice(u);
}

/// The spaces of an ASCII code do not matter: without them it normalises the same.
pub proof fn law_normalize_ignores_spaces(s: Seq<char>)
    requires
        all_ascii(s),
    ensures
        normalized(without_spaces(s)) == normalized(s),
{
    let t = trim(s);
    lemma_trim_twice(s);
    lemma_trim_without_spaces(s);
    lemma_without_spaces_ascii(t);
    lemma_upper_without_spaces(t);
    lemma_without_spaces_twice(ascii_upper_all(t));
}

/// The letter case of an ASCII code does not matter: in lower or upper case it normalises
/// the same.
pub proof fn law_normalize_ignores_case(s: Seq<char>)
    requires
        all_ascii(s),
    ensures
        normalized(ascii_lower_all(s)) == normalized(s),
        normalized(ascii_upper_all(s)) == normalized(s),
{
    let t = trim(s);
    lemma_trim_twice(s);
    lemma_case_maps(s);
    lemma_case_maps(t);
}

/// `pat` does not occur in `s` at `j`.
spec fn absent_at(s: Seq<char>, pat: Seq<char>, j: int) -> bool {
    s.subrange(j, j + pat.len()) != pat
}

proof fn lemma_find_seq_first(s: Seq<char>, pat: Seq<char>)
    ensures
        find_seq(s, pat) matches Some(k) ==> forall|j: int|
            0 <= j < k ==> #[trigger] absent_at(s, pat, j),
        find_seq(s, pat) is None ==> forall|j: int|
            0 <= j && j + pat.len() <= s.len() ==> #[trigger] absent_at(s, pat, j),
        (forall|j: int| 0 <= j && j + pat.len() <= s.len() ==> #[trigger] absent_at(s, pat, j))
            ==> find_seq(s, pat) is None,
    decreases s.len(),
{
    if s.len() > 0 {
        let r = s.drop_first();
        lemma_find_seq_first(r, pat);
        assert forall|j: int| 1 <= j && j + pat.len() <= s.len() implies absent_at(s, pat, j)
            == absent_at(r, pat, j - 1) by {
            assert(s.subrange(j, j + pat.len()) =~= r.subrange(j - 1, j - 1 + pat.len()));
        }
        if starts_with(s, pat) {
            assert(s.take(pat.len() as int) =~= s.subrange(0, pat.len() as int));
            assert(!absent_at(s, pat, 0));
        } else if pat.len() <= s.len() {
            assert(s.take(pat.len() as int) =~= s.subrange(0, pat.len() as int));
            assert(absent_at(s, pat, 0));
        }
        if forall|j: int| 0 <= j && j + pat.len() <= s.len() ==> #[trigger] absent_at(s, pat, j) {
            assert forall|j: int| 0 <= j && j + pat.len() <= r.len() implies #[trigger] absent_at(
                r,
                pat,
                j,
            ) by {
                assert(absent_at(s, pat, j + 1));
            }
        }
    } else {
        if starts_with(s, pat) {
            assert(s.subrange(0, pat.len() as int) =~= pat);
            assert(!absent_at(s, pat, 0));
        }
    }
}

/// The code part of a typed entry is its own code part.
proof fn lemma_code_part_twice(s: Seq<char>)
    ensures
        code_part(code_part(s)) == code_part(s),
{
    let v = trim(s);
    let sep = name_separator();
    lemma_trim_twice(s);
    lemma_find_seq_first(v, sep);
    let c = code_part(s);
    match find_seq(v, sep) {
        Some(k) => {
            crate::text::lemma_find_seq_bounds(v, sep);
            let y = v.take(k);
            lemma_trim_twice(y);
            let a = trim_start(y);
            lemma_trim_shape(y);
            lemma_trim_shape(a);
            let m = y.len() - a.len();
            assert forall|j: int| 0 <= j && j + sep.len() <= c.len() implies #[trigger] absent_at(
                c,
                sep,
                j,
            ) by {
                assert(c.subrange(j, j + 3) =~= v.subrange(m + j, m + j + 3));
                assert(absent_at(v, sep, m + j));
            }
            lemma_find_seq_first(c, sep);
        },
        None => {},
    }
}

proof fn lemma_fixed_name(s: Seq<char>)
    requires
        s.len() > 0,
        !is_ws(s[0]),
        !is_ws(s.last()),
        forall|i: int| 0 <= i < s.len() ==> #[trigger] s[i] != ' ',
        all_ascii(s),
    ensures
        code_part(s) == s,
        normalized(s) == ascii_upper_all(s),
{
    assert(trim_start(s) == s);
    assert(trim(s) == s);
    lemma_find_seq_first(s, name_separator());
    assert forall|j: int| 0 <= j && j + 3 <= s.len() implies #[trigger] absent_at(
        s,
        name_separator(),
        j,
    ) by {
        assert(s.subrange(j, j + 3)[0] == s[j]);
    }
    let u = ascii_upper_all(s);
    assert forall|i: int| 0 <= i < u.len() implies #[trigger] u[i] != ' ' by {
        lemma_ascii_case_char(s[i]);
    }
    lemma_without_spaces_shape(u);
}

/// Reading the code out of an entry's own code gives that code again: `extract_code` applied
/// to its result changes nothing.
pub proof fn law_extract_code_idempotent(s: Seq<char>)
    ensures
        extracted(extracted(s)) == extracted(s),
{
    reveal_strlit("Blanc");
    reveal_strlit("Ecru");
    reveal_strlit("WHITE");
    reveal_strlit("OFFWHITE");
    reveal_strlit("OFF-WHITE");
    reveal_strlit("CREAM");
    let e = extracted(s);
    if e == "Blanc"@ || e == "Ecru"@ {
        lemma_fixed_name(e);
        let n = ascii_upper_all(e);
        assert(n[0] != 'W' && n[0] != 'O' && n[0] != 'C');
        assert(n != "WHITE"@ && n != "OFFWHITE"@ && n != "OFF-WHITE"@ && n != "CREAM"@);
    } else {
        lemma_code_part_twice(s);
    }
}

} // verus!
