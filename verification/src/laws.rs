//! Properties of the library as a whole, proved over the specifications of its functions.

use vstd::prelude::*;

use crate::code::{extracted, normalized};
use crate::color::{
    first_with_code, hex_char, hex_digit_value, hex_digits, hex_pair, hex_rgb, hex_text, hex_value,
    lemma_first_with_code, lemma_hex_value_single, parse_hex_u8, ColorRecord,
};
use crate::stash::{
    at_least_one, group_entries, groups_entries, line_stash_entries, nonblank_trimmed, owned_text, quantity,
    recognized_texts, stash_entry, tally, tally_wf,
};
use crate::text::{
    decimal, is_digit, is_ws, join, split_any, last_index_of, lemma_decimal_digits, starts_with,
    strip_prefixes, unsigned_digits, words,
};
use crate::matching::{is_best_ranking, is_candidate, is_listed, rank_key, ranks_before, MatchResult};
use crate::settings::{setting_enables_dark, setting_text};
use crate::stash_search::owned_label;
use crate::text::{trim, trim_end, trim_start};

verus! {

/// Reading back the saved theme setting gives the theme that was saved: the text that
/// `dark_mode_setting_text` writes for `enabled` is read by `parse_dark_mode_setting` as
/// `enabled`.
pub proof fn law_dark_mode_round_trip(enabled: bool)
    ensures
        setting_enables_dark(setting_text(enabled)) == enabled,
{
    reveal_strlit("dark=true\n");
    reveal_strlit("dark=false\n");
    reveal_strlit("dark=true");
    let on = "dark=true\n"@;
    let off = "dark=false\n"@;
    assert(trim_start(on) == on);
    assert(on.drop_last() =~= "dark=true"@);
    assert(trim_end("dark=true"@) == "dark=true"@);
    assert(trim_end(on) == "dark=true"@);
    assert(trim_start(off) == off);
    assert(trim_end(off.drop_last()) == off.drop_last());
    assert(trim_end(off) == off.drop_last());
    assert(off.drop_last().len() == 10);
}


/// No substitute has the target's own code.
pub proof fn law_ranking_excludes_target(
    rs: Seq<ColorRecord>,
    target: int,
    allowed: Option<Set<usize>>,
    distances: Seq<u64>,
    count: int,
    res: Seq<MatchResult>,
)
    requires
        is_best_ranking(rs, target, allowed, distances, count, res),
    ensures
        forall|k: int|
            0 <= k < res.len() ==> normalized(rs[(#[trigger] res[k]).color_index as int].code)
                != normalized(rs[target].code),
{
}

/// Substitutes are listed closest first.
pub proof fn law_ranking_closest_first(
    rs: Seq<ColorRecord>,
    target: int,
    allowed: Option<Set<usize>>,
    distances: Seq<u64>,
    count: int,
    res: Seq<MatchResult>,
)
    requires
        is_best_ranking(rs, target, allowed, distances, count, res),
    ensures
        forall|k: int, l: int|
            0 <= k < l < res.len() ==> (#[trigger] res[k]).distance <= (#[trigger] res[l]).distance,
{
}

/// A colour left out of a full list is no closer than any listed substitute.
pub proof fn law_ranking_leaves_out_only_farther(
    rs: Seq<ColorRecord>,
    target: int,
    allowed: Option<Set<usize>>,
    distances: Seq<u64>,
    count: int,
    res: Seq<MatchResult>,
    j: int,
)
    requires
        is_best_ranking(rs, target, allowed, distances, count, res),
        is_candidate(rs, target, allowed, j),
        !is_listed(res, j),
    ensures
        res.len() == count,
        forall|k: int| 0 <= k < res.len() ==> (#[trigger] res[k]).distance <= distances[j],
{
}

/// With a set of allowed colours (the stash), only allowed colours are offered.
pub proof fn law_ranking_within_allowed(
    rs: Seq<ColorRecord>,
    target: int,
    allowed: Set<usize>,
    distances: Seq<u64>,
    count: int,
    res: Seq<MatchResult>,
)
    requires
        is_best_ranking(rs, target, Some(allowed), distances, count, res),
    ensures
        forall|k: int| 0 <= k < res.len() ==> allowed.contains((#[trigger] res[k]).color_index),
{
    assert forall|k: int| 0 <= k < res.len() implies allowed.contains((#[trigger] res[k]).color_index) by {
        assert(is_candidate(rs, target, Some(allowed), res[k].color_index as int));
    }
}

/// The ranking is determined: two lists that both are the best ranking for the same target,
/// catalogue, allowed colours, distances and count are the same list.
pub proof fn law_ranking_is_unique(
    rs: Seq<ColorRecord>,
    target: int,
    allowed: Option<Set<usize>>,
    distances: Seq<u64>,
    count: int,
    a: Seq<MatchResult>,
    b: Seq<MatchResult>,
)
    requires
        is_best_ranking(rs, target, allowed, distances, count, a),
        is_best_ranking(rs, target, allowed, distances, count, b),
    ensures
        a == b,
{
    assert forall|k: int| 0 <= k < a.len() && k < b.len() implies a[k] == b[k] by {
        lemma_rankings_agree_at(rs, target, allowed, distances, count, a, b, k);
    }
    if a.len() < b.len() {
        lemma_ranking_lengths(rs, target, allowed, distances, count, a, b);
    } else if b.len() < a.len() {
        assert forall|k: int| 0 <= k < a.len() && k < b.len() implies b[k] == a[k] by {
            lemma_rankings_agree_at(rs, target, allowed, distances, count, a, b, k);
        }
        lemma_ranking_lengths(rs, target, allowed, distances, count, b, a);
    }
    assert(a =~= b);
}

proof fn lemma_rankings_agree_at(
    rs: Seq<ColorRecord>,
    target: int,
    allowed: Option<Set<usize>>,
    distances: Seq<u64>,
    count: int,
    a: Seq<MatchResult>,
    b: Seq<MatchResult>,
    k: int,
)
    requires
        is_best_ranking(rs, target, allowed, distances, count, a),
        is_best_ranking(rs, target, allowed, distances, count, b),
        0 <= k < a.len(),
        k < b.len(),
    ensures
        a[k] == b[k],
    decreases k,
{
    assert forall|m: int| 0 <= m < k implies a[m] == b[m] by {
        lemma_rankings_agree_at(rs, target, allowed, distances, count, a, b, m);
    }
    let x = a[k];
    let y = b[k];
    assert(is_candidate(rs, target, allowed, x.color_index as int));
    assert(is_candidate(rs, target, allowed, y.color_index as int));
    if x.color_index == y.color_index {
        assert(x.distance == y.distance);
    } else if ranks_before(rank_key(x), rank_key(y)) {
        lemma_first_unlisted(rs, target, allowed, distances, count, a, b, k);
    } else {
        assert(ranks_before(rank_key(y), rank_key(x)));
        lemma_first_unlisted(rs, target, allowed, distances, count, b, a, k);
    }
}

/// Where two rankings agree before position `k`, `a[k]` does not rank before `b[k]`.
proof fn lemma_first_unlisted(
    rs: Seq<ColorRecord>,
    target: int,
    allowed: Option<Set<usize>>,
    distances: Seq<u64>,
    count: int,
    a: Seq<MatchResult>,
    b: Seq<MatchResult>,
    k: int,
)
    requires
        is_best_ranking(rs, target, allowed, distances, count, a),
        is_best_ranking(rs, target, allowed, distances, count, b),
        0 <= k < a.len(),
        k < b.len(),
        forall|m: int| 0 <= m < k ==> a[m] == b[m],
    ensures
        !ranks_before(rank_key(a[k]), rank_key(b[k])),
{
    if ranks_before(rank_key(a[k]), rank_key(b[k])) {
        let j = a[k].color_index as int;
        assert(is_candidate(rs, target, allowed, j));
        if is_listed(b, j) {
            let m = choose|m: int| 0 <= m < b.len() && #[trigger] b[m].color_index == j;
            assert(b[m].distance == distances[j]);
            if m < k {
                assert(b[m] == a[m]);
                assert(ranks_before(rank_key(a[m]), rank_key(a[k])));
            } else if m == k {
            } else {
                assert(ranks_before(rank_key(b[k]), rank_key(b[m])));
            }
        } else {
            assert(ranks_before(rank_key(b[k]), (distances[j], j)));
        }
    }
}

/// Where two rankings agree on `a`'s entries, `a` is not shorter than `b`.
proof fn lemma_ranking_lengths(
    rs: Seq<ColorRecord>,
    target: int,
    allowed: Option<Set<usize>>,
    distances: Seq<u64>,
    count: int,
    a: Seq<MatchResult>,
    b: Seq<MatchResult>,
)
    requires
        is_best_ranking(rs, target, allowed, distances, count, a),
        is_best_ranking(rs, target, allowed, distances, count, b),
        forall|k: int| 0 <= k < a.len() && k < b.len() ==> a[k] == b[k],
    ensures
        a.len() >= b.len(),
{
    if a.len() < b.len() {
        let n = a.len() as int;
        let j = b[n].color_index as int;
        assert(is_candidate(rs, target, allowed, j));
        if is_listed(a, j) {
            let m = choose|m: int| 0 <= m < a.len() && #[trigger] a[m].color_index == j;
            assert(a[m] == b[m]);
            assert(ranks_before(rank_key(b[m]), rank_key(b[n])));
        }
    }
}


/// Every catalogue colour is found by its own code: the search for it gives that colour or an
/// earlier one with the same normalised code.
pub proof fn law_colour_found_by_its_code(rs: Seq<ColorRecord>, i: int)
    requires
        0 <= i < rs.len(),
    ensures
        first_with_code(rs, normalized(rs[i].code)) matches Some(j) && j <= i && normalized(
            rs[j].code,
        ) == normalized(rs[i].code),
{
    lemma_first_with_code(rs, normalized(rs[i].code));
}

pub(crate) proof fn lemma_trim_of_unpadded(s: Seq<char>)
    requires
        s.len() > 0,
        !is_ws(s[0]),
        !is_ws(s.last()),
    ensures
        trim(s) == s,
{
    assert(trim_start(s) == s);
}

pub(crate) proof fn lemma_words_of_word(a: Seq<char>)
    requires
        a.len() > 0,
        forall|i: int| 0 <= i < a.len() ==> !is_ws(#[trigger] a[i]),
    ensures
        words(a) == seq![a],
    decreases a.len(),
{
    if a.len() == 1 {
        assert(a.drop_last() =~= Seq::<char>::empty());
        assert(words(a.drop_last()) =~= Seq::<Seq<char>>::empty());
        assert(!is_ws(a.last()));
        assert(seq![a.last()] =~= a);
        assert(words(a) == Seq::<Seq<char>>::empty().push(seq![a.last()]));
        assert(Seq::<Seq<char>>::empty().push(a) =~= seq![a]);
    } else {
        let init = a.drop_last();
        assert forall|i: int| 0 <= i < init.len() implies !is_ws(#[trigger] init[i]) by {
            assert(init[i] == a[i]);
        }
        lemma_words_of_word(init);
        assert(!is_ws(a.last()));
        assert(!is_ws(a[a.len() - 2]));
        assert(a[a.len() - 2] == init.last());
        assert(init.push(a.last()) =~= a);
        assert(seq![init].update(0, init.push(a.last())) =~= seq![a]);
    }
}

pub(crate) proof fn lemma_words_after_space(p: Seq<char>, q: Seq<char>, k: int)
    requires
        0 < k <= q.len(),
        forall|i: int| 0 <= i < q.len() ==> !is_ws(#[trigger] q[i]),
    ensures
        words(p.push(' ') + q.take(k)) == words(p).push(q.take(k)),
    decreases k,
{
    let r = p.push(' ');
    let s = r + q.take(k);
    assert(s.drop_last() =~= r + q.take(k - 1));
    assert(s.last() == q[k - 1]);
    if k == 1 {
        assert(r + q.take(0) =~= r);
        assert(r.drop_last() =~= p);
        assert(words(r) == words(p));
        assert(s[s.len() - 2] == ' ');
        assert(seq![q[0]] =~= q.take(1));
    } else {
        lemma_words_after_space(p, q, k - 1);
        assert(s[s.len() - 2] == q[k - 2]);
        assert(q.take(k - 1).push(q[k - 1]) =~= q.take(k));
        let w = words(p).push(q.take(k - 1));
        assert(w.update(w.len() - 1, w.last().push(q[k - 1])) =~= words(p).push(q.take(k)));
    }
}

proof fn lemma_no_last_index(s: Seq<char>, c: char)
    requires
        forall|i: int| 0 <= i < s.len() ==> s[i] != c,
    ensures
        last_index_of(s, c) is None,
    decreases s.len(),
{
    if s.len() > 0 {
        lemma_no_last_index(s.drop_last(), c);
    }
}

proof fn lemma_strip_absent(s: Seq<char>, pat: Seq<char>)
    requires
        pat.len() > 0,
        s.len() > 0,
        s[0] != pat[0],
    ensures
        strip_prefixes(s, pat) == s,
{
    if starts_with(s, pat) {
        assert(s.take(pat.len() as int)[0] == s[0]);
    }
}

proof fn lemma_quantity_of_x_count(n: u32)
    ensures
        quantity(seq!['x'] + decimal(n as nat)) == Some(n),
{
    let d = decimal(n as nat);
    lemma_decimal_digits(n as nat);
    lemma_digit_char_not_marker(d[0]);
    let s = seq!['x'] + d;
    assert(!is_ws(s[0]));
    assert(s.last() == d.last());
    assert(is_digit(d[d.len() - 1]));
    lemma_trim_of_unpadded(s);
    assert(starts_with(s, seq!['x'])) by {
        assert(s.take(1) =~= seq!['x']);
    }
    assert(s.skip(1) =~= d);
    lemma_strip_absent(d, seq!['x']);
    lemma_strip_absent(d, seq!['X']);
    lemma_strip_absent(d, seq!['q', 't', 'y']);
    lemma_strip_absent(d, seq!['Q', 't', 'y']);
    lemma_strip_absent(d, seq!['Q', 'T', 'Y']);
    lemma_strip_absent(d, seq!['=']);
    lemma_strip_absent(d, seq![':']);
    assert(is_digit(d[0]));
    lemma_trim_of_unpadded(d);
    assert(unsigned_digits(d) == d);
}

pub(crate) proof fn lemma_digit_char_not_marker(c: char)
    requires
        is_digit(c),
    ensures
        c != 'x' && c != 'X' && c != 'q' && c != 'Q' && c != '=' && c != ':' && c != '+' && !is_ws(c)
            && c != ',',
{
}

/// An entry made of a one-word code, a space and a quantity word that ends in a digit reads
/// as that code with that quantity.
proof fn lemma_entry_code_space_quantity(code: Seq<char>, qt: Seq<char>, n: u32)
    requires
        code.len() > 0,
        forall|i: int|
            0 <= i < code.len() ==> !is_ws(#[trigger] code[i]) && code[i] != '=' && code[i] != ':'
                && code[i] != ',',
        qt.len() > 0,
        is_digit(qt.last()),
        forall|i: int|
            0 <= i < qt.len() ==> !is_ws(#[trigger] qt[i]) && qt[i] != '=' && qt[i] != ':' && qt[i]
                != ',',
        quantity(qt) == Some(n),
    ensures
        stash_entry(code.push(' ') + qt) == (extracted(code), at_least_one(n)),
{
    let s = code.push(' ') + qt;
    assert(s[0] == code[0]);
    assert(s.last() == qt.last());
    lemma_digit_char_not_marker(qt.last());
    lemma_trim_of_unpadded(s);
    assert forall|i: int| 0 <= i < s.len() implies s[i] != '=' && s[i] != ':' && s[i] != ',' by {
        if i >= code.len() + 1 {
            assert(s[i] == qt[i - code.len() - 1]);
        } else if i < code.len() {
            assert(s[i] == code[i]);
        }
    }
    lemma_no_last_index(s, '=');
    lemma_no_last_index(s, ':');
    lemma_no_last_index(s, ',');
    lemma_words_of_word(code);
    lemma_words_after_space(code, qt, qt.len() as int);
    assert(qt.take(qt.len() as int) =~= qt);
    assert(words(s) =~= seq![code, qt]);
    assert(seq![code, qt].drop_last() =~= seq![code]);
    assert(join(seq![code], seq![' ']) == code);
}

/// A colour listed as `code xN` (as the FlossKeeper import writes it) reads back as that code
/// with quantity `N` (a quantity of 0 as 1), where the code is one word without `=`, `:` and
/// `,`.
pub proof fn law_owned_entry_reads_back(code: Seq<char>, n: u32)
    requires
        code.len() > 0,
        forall|i: int|
            0 <= i < code.len() ==> !is_ws(#[trigger] code[i]) && code[i] != '=' && code[i] != ':'
                && code[i] != ',',
    ensures
        stash_entry(owned_text(code, n)) == (extracted(code), at_least_one(n)),
{
    let d = decimal(n as nat);
    lemma_decimal_digits(n as nat);
    let xq = seq!['x'] + d;
    assert(owned_text(code, n) =~= code.push(' ') + xq);
    assert(xq.last() == d.last());
    assert(is_digit(d[d.len() - 1]));
    assert forall|i: int| 0 <= i < xq.len() implies !is_ws(#[trigger] xq[i]) && xq[i] != '='
        && xq[i] != ':' && xq[i] != ',' by {
        if i > 0 {
            assert(xq[i] == d[i - 1]);
            lemma_digit_char_not_marker(d[i - 1]);
        }
    }
    lemma_quantity_of_x_count(n);
    lemma_entry_code_space_quantity(code, xq, n);
}

/// An entry made of a one-word code, a space and a bare decimal number `N` reads as that code
/// with quantity `N` (a quantity of 0 as 1), where the code is one word without `=`, `:` and
/// `,`: `310 2` is two skeins of 310.
pub proof fn law_code_and_number_reads_as_quantity(code: Seq<char>, n: u32)
    requires
        code.len() > 0,
        forall|i: int|
            0 <= i < code.len() ==> !is_ws(#[trigger] code[i]) && code[i] != '=' && code[i] != ':'
                && code[i] != ',',
    ensures
        stash_entry(code + seq![' '] + decimal(n as nat)) == (extracted(code), at_least_one(n)),
{
    let d = decimal(n as nat);
    lemma_decimal_digits(n as nat);
    assert(code + seq![' '] + d =~= code.push(' ') + d);
    assert(is_digit(d[d.len() - 1]));
    assert forall|i: int| 0 <= i < d.len() implies !is_ws(#[trigger] d[i]) && d[i] != '=' && d[i]
        != ':' && d[i] != ',' by {
        lemma_digit_char_not_marker(d[i]);
    }
    law_quantity_reads_decimal(n);
    lemma_entry_code_space_quantity(code, d, n);
}


/// Every recognised stash colour is a catalogue position and has a quantity of at least one,
/// and each is listed once: the listing of recognised colours has one line per colour.
pub proof fn law_stash_quantities(rs: Seq<ColorRecord>, es: Seq<Seq<char>>)
    ensures
        forall|i: usize| tally(rs, es).quantities.contains_key(i) ==> i < rs.len(),
        forall|i: usize|
            tally(rs, es).quantities.contains_key(i) ==> #[trigger] tally(rs, es).quantities[i] >= 1,
        recognized_texts(rs, tally(rs, es)).len() == tally(rs, es).quantities.dom().len(),
{
    lemma_tally_wf(rs, es);
    let t = tally(rs, es);
    assert forall|i: usize| t.quantities.contains_key(i) implies i < rs.len() by {
        assert(t.order.contains(i));
        let j = choose|j: int| 0 <= j < t.order.len() && t.order[j] == i;
        assert(t.order[j] < rs.len());
    }
    assert(t.order.to_set() =~= t.quantities.dom()) by {
        assert forall|i: usize| t.order.to_set().contains(i) <==> t.quantities.dom().contains(i) by {
            if t.order.to_set().contains(i) {
                assert(t.order.contains(i));
                let j = choose|j: int| 0 <= j < t.order.len() && t.order[j] == i;
                assert(t.quantities.contains_key(t.order[j]));
            }
        }
    }
    t.order.unique_seq_to_set();
}

proof fn lemma_tally_wf(rs: Seq<ColorRecord>, es: Seq<Seq<char>>)
    ensures
        tally_wf(tally(rs, es), rs.len()),
        forall|i: usize|
            tally(rs, es).quantities.contains_key(i) ==> #[trigger] tally(rs, es).quantities[i] >= 1,
    decreases es.len(),
{
    if es.len() > 0 {
        lemma_tally_wf(rs, es.drop_last());
        let t = tally(rs, es.drop_last());
        let e = es.last();
        let cleaned = trim(e);
        if cleaned.len() > 0 {
            let (code, q) = stash_entry(cleaned);
            if normalized(code).len() > 0 {
                lemma_first_with_code(rs, normalized(code));
                match first_with_code(rs, normalized(code)) {
                    Some(i) => {
                        let idx = i as usize;
                        let n = tally(rs, es);
                        if !t.quantities.contains_key(idx) {
                            assert forall|j: int| 0 <= j < n.order.len() implies #[trigger] n.order[j]
                                < rs.len() && n.quantities.contains_key(n.order[j]) by {
                                if j < t.order.len() {
                                    assert(n.order[j] == t.order[j]);
                                }
                            }
                            assert forall|k: usize| n.quantities.contains_key(k) implies n.order.contains(k) by {
                                if k != idx {
                                    assert(t.order.contains(k));
                                    let j = choose|j: int| 0 <= j < t.order.len() && t.order[j] == k;
                                    assert(n.order[j] == k);
                                } else {
                                    assert(n.order[t.order.len() as int] == k);
                                }
                            }
                            assert forall|a: int, b: int| 0 <= a < b < n.order.len() implies n.order[a] != n.order[b] by {
                                if b == t.order.len() {
                                    assert(n.order[a] == t.order[a]);
                                    assert(t.order.contains(t.order[a]));
                                } else {
                                    assert(n.order[a] == t.order[a] && n.order[b] == t.order[b]);
                                }
                            }
                        } else {
                            assert forall|k: usize| n.quantities.contains_key(k) implies n.order.contains(k) by {
                                assert(t.quantities.contains_key(k));
                            }
                        }
                    },
                    None => {},
                }
            }
        }
    }
}


pub(crate) proof fn lemma_split_without_separators(s: Seq<char>, seps: Seq<char>)
    requires
        forall|i: int| 0 <= i < s.len() ==> !seps.contains(#[trigger] s[i]),
    ensures
        split_any(s, seps) == seq![s],
    decreases s.len(),
{
    if s.len() == 0 {
        assert(s =~= Seq::<char>::empty());
    } else {
        let init = s.drop_last();
        assert forall|i: int| 0 <= i < init.len() implies !seps.contains(#[trigger] init[i]) by {
            assert(init[i] == s[i]);
        }
        lemma_split_without_separators(init, seps);
        assert(!seps.contains(s.last()));
        assert(init.push(s.last()) =~= s);
        assert(seq![init].update(0, init.push(s.last())) =~= seq![s]);
    }
}

/// A line `code xN` as the FlossKeeper import writes it is one stash entry, where the code is
/// one word without `#`, `;`, `|` and `,`.
pub proof fn law_owned_line_is_one_entry(code: Seq<char>, n: u32)
    requires
        code.len() > 0,
        forall|i: int|
            0 <= i < code.len() ==> !is_ws(#[trigger] code[i]) && code[i] != '#' && code[i] != ';'
                && code[i] != '|' && code[i] != ',',
    ensures
        line_stash_entries(owned_text(code, n)) == seq![owned_text(code, n)],
{
    let d = decimal(n as nat);
    lemma_decimal_digits(n as nat);
    let s = owned_text(code, n);
    assert(s[0] == code[0]);
    assert(s.last() == d.last());
    assert(is_digit(d[d.len() - 1]));
    lemma_digit_char_not_marker(d[d.len() - 1]);
    lemma_trim_of_unpadded(s);
    assert forall|i: int| 0 <= i < s.len() implies s[i] != '#' && s[i] != ';' && s[i] != '|' && s[i] != ',' by {
        if i >= code.len() + 2 {
            assert(s[i] == d[i - code.len() - 2]);
            lemma_digit_char_not_marker(d[i - code.len() - 2]);
        }
    }
    lemma_split_without_separators(s, seq!['#']);
    lemma_split_without_separators(s, seq![';', '|']);
    lemma_split_without_separators(s, seq![',']);
    let one = seq![s];
    assert(one.drop_last() =~= Seq::<Seq<char>>::empty());
    assert(one.last() == s);
    assert(nonblank_trimmed(Seq::<Seq<char>>::empty()) == Seq::<Seq<char>>::empty());
    assert(nonblank_trimmed(one) == Seq::<Seq<char>>::empty().push(s));
    assert(Seq::<Seq<char>>::empty().push(s) =~= one);
    assert(group_entries(s) == one);
    assert(groups_entries(Seq::<Seq<char>>::empty()) == Seq::<Seq<char>>::empty());
    assert(groups_entries(one) == Seq::<Seq<char>>::empty() + one);
    assert(Seq::<Seq<char>>::empty() + one =~= one);
}

} // verus!

verus! {

/// The decimal text of any `u32` reads back as that quantity, bare, after `x`, or after
/// `qty `.
pub proof fn law_quantity_reads_decimal(n: u32)
    ensures
        quantity(decimal(n as nat)) == Some(n),
        quantity(seq!['x'] + decimal(n as nat)) == Some(n),
        quantity(seq!['q', 't', 'y', ' '] + decimal(n as nat)) == Some(n),
{
    let d = decimal(n as nat);
    lemma_decimal_digits(n as nat);
    lemma_digit_char_not_marker(d[0]);
    lemma_digit_char_not_marker(d[d.len() - 1]);
    lemma_trim_of_unpadded(d);
    lemma_strip_absent(d, seq!['x']);
    lemma_strip_absent(d, seq!['X']);
    lemma_strip_absent(d, seq!['q', 't', 'y']);
    lemma_strip_absent(d, seq!['Q', 't', 'y']);
    lemma_strip_absent(d, seq!['Q', 'T', 'Y']);
    lemma_strip_absent(d, seq!['=']);
    lemma_strip_absent(d, seq![':']);
    assert(unsigned_digits(d) == d);
    lemma_quantity_of_x_count(n);
    let s = seq!['q', 't', 'y', ' '] + d;
    assert(s.last() == d.last());
    lemma_trim_of_unpadded(s);
    lemma_strip_absent(s, seq!['x']);
    lemma_strip_absent(s, seq!['X']);
    let rest = seq![' '] + d;
    assert(starts_with(s, seq!['q', 't', 'y'])) by {
        assert(s.take(3) =~= seq!['q', 't', 'y']);
    }
    assert(s.skip(3) =~= rest);
    lemma_strip_absent(rest, seq!['q', 't', 'y']);
    lemma_strip_absent(rest, seq!['Q', 't', 'y']);
    lemma_strip_absent(rest, seq!['Q', 'T', 'Y']);
    lemma_strip_absent(rest, seq!['=']);
    lemma_strip_absent(rest, seq![':']);
    assert(rest.drop_first() =~= d);
    assert(is_ws(rest[0]));
    assert(trim_start(rest) == trim_start(d));
    assert(trim_start(d) == d);
    assert(trim(rest) == d);
}

} // verus!

verus! {

/// Asking for fewer substitutes gives the start of the longer list: the ranking for `n` is the
/// first `n` entries (or all, where there are fewer) of the ranking for `m >= n`.
pub proof fn law_ranking_shorter_is_prefix(
    rs: Seq<ColorRecord>,
    target: int,
    allowed: Option<Set<usize>>,
    distances: Seq<u64>,
    n: int,
    m: int,
    short: Seq<MatchResult>,
    long: Seq<MatchResult>,
)
    requires
        0 <= n <= m,
        is_best_ranking(rs, target, allowed, distances, n, short),
        is_best_ranking(rs, target, allowed, distances, m, long),
    ensures
        short == long.take(if n < long.len() { n } else { long.len() as int }),
{
    let k = if n < long.len() { n } else { long.len() as int };
    let t = long.take(k);
    assert forall|j: int|
        is_candidate(rs, target, allowed, j) implies is_listed(t, j) || (t.len() == n && forall|q: int|
            0 <= q < t.len() ==> ranks_before(rank_key(#[trigger] t[q]), (distances[j], j))) by {
        if is_listed(long, j) {
            let p = choose|p: int| 0 <= p < long.len() && #[trigger] long[p].color_index == j;
            if p < k {
                assert(t[p].color_index == j);
            } else {
                assert forall|q: int| 0 <= q < t.len() implies ranks_before(rank_key(#[trigger] t[q]), (distances[j], j)) by {
                    assert(t[q] == long[q]);
                    assert(ranks_before(rank_key(long[q]), rank_key(long[p])));
                }
            }
        } else {
            assert forall|q: int| 0 <= q < t.len() implies ranks_before(rank_key(#[trigger] t[q]), (distances[j], j)) by {
                assert(t[q] == long[q]);
            }
        }
    }
    assert forall|a: int, b: int| 0 <= a < b < t.len() implies ranks_before(rank_key(#[trigger] t[a]), rank_key(#[trigger] t[b])) by {
        assert(t[a] == long[a] && t[b] == long[b]);
    }
    assert forall|q: int| 0 <= q < t.len() implies is_candidate(rs, target, allowed, (#[trigger] t[q]).color_index as int)
        && t[q].distance == distances[t[q].color_index as int] by {
        assert(t[q] == long[q]);
    }
    assert(is_best_ranking(rs, target, allowed, distances, n, t));
    law_ranking_is_unique(rs, target, allowed, distances, n, short, t);
}

} // verus!

verus! {

proof fn lemma_hex_char(d: nat, upper: bool)
    requires
        d < 16,
    ensures
        hex_digit_value(hex_char(d, upper)) == Some(d),
        !is_ws(hex_char(d, upper)),
        hex_char(d, upper) != '#',
        hex_char(d, upper) != '+',
{
}

proof fn lemma_hex_pair(v: u8, upper: bool)
    ensures
        parse_hex_u8(hex_pair(v, upper)) == Some(v),
{
    let hi = v as nat / 16;
    let lo = v as nat % 16;
    lemma_hex_char(hi, upper);
    lemma_hex_char(lo, upper);
    let p = hex_pair(v, upper);
    assert(unsigned_digits(p) == p);
    assert(p.drop_last() =~= seq![hex_char(hi, upper)]);
    assert(p.last() == hex_char(lo, upper));
    lemma_hex_value_single(hex_char(hi, upper));
    assert(hex_value(p) == Some(hi * 16 + lo));
    vstd::arithmetic::div_mod::lemma_fundamental_div_mod(v as int, 16);
    assert(hi * 16 + lo == v as nat);
}

/// A colour formatted as `#RRGGBB` (upper-case digits) or `rrggbb` (lower-case digits, no
/// `#`) reads back as that colour.
pub proof fn law_hex_round_trip(rgb: (u8, u8, u8))
    ensures
        hex_rgb(seq!['#'] + hex_text(rgb, true)) == Some(rgb),
        hex_rgb(hex_text(rgb, false)) == Some(rgb),
{
    lemma_hex_round_trip_case(rgb, true);
    lemma_hex_round_trip_case(rgb, false);
    let h = hex_text(rgb, true);
    let s = seq!['#'] + h;
    lemma_hex_chars_of_text(rgb, true);
    assert(s.last() == h.last());
    lemma_trim_of_unpadded(s);
    assert(starts_with(s, seq!['#'])) by {
        assert(s.take(1) =~= seq!['#']);
    }
    assert(s.skip(1) =~= h);
    lemma_strip_absent(h, seq!['#']);
    assert(strip_prefixes(s, seq!['#']) == h);
}

proof fn lemma_hex_chars_of_text(rgb: (u8, u8, u8), upper: bool)
    ensures
        hex_text(rgb, upper).len() == 6,
        forall|i: int|
            0 <= i < 6 ==> !is_ws(#[trigger] hex_text(rgb, upper)[i]) && hex_text(rgb, upper)[i] != '#',
        hex_text(rgb, upper).subrange(0, 2) == hex_pair(rgb.0, upper),
        hex_text(rgb, upper).subrange(2, 4) == hex_pair(rgb.1, upper),
        hex_text(rgb, upper).subrange(4, 6) == hex_pair(rgb.2, upper),
{
    let h = hex_text(rgb, upper);
    lemma_hex_char(rgb.0 as nat / 16, upper);
    lemma_hex_char(rgb.0 as nat % 16, upper);
    lemma_hex_char(rgb.1 as nat / 16, upper);
    lemma_hex_char(rgb.1 as nat % 16, upper);
    lemma_hex_char(rgb.2 as nat / 16, upper);
    lemma_hex_char(rgb.2 as nat % 16, upper);
    assert(h.subrange(0, 2) =~= hex_pair(rgb.0, upper));
    assert(h.subrange(2, 4) =~= hex_pair(rgb.1, upper));
    assert(h.subrange(4, 6) =~= hex_pair(rgb.2, upper));
}

proof fn lemma_hex_round_trip_case(rgb: (u8, u8, u8), upper: bool)
    ensures
        hex_rgb(hex_text(rgb, upper)) == Some(rgb),
{
    let h = hex_text(rgb, upper);
    lemma_hex_chars_of_text(rgb, upper);
    lemma_hex_pair(rgb.0, upper);
    lemma_hex_pair(rgb.1, upper);
    lemma_hex_pair(rgb.2, upper);
    lemma_trim_of_unpadded(h);
    lemma_strip_absent(h, seq!['#']);
}


/// The Owned column of a stash search: a colour the stash does not hold is shown as `-`;
/// one it holds, even once, is shown as `x` followed by a number that the stash reader takes
/// as exactly the quantity held.
pub proof fn law_owned_label(q: Map<usize, u32>, i: usize)
    ensures
        (owned_label(q, i) == "-"@) == !q.contains_key(i),
        q.contains_key(i) ==> owned_label(q, i)[0] == 'x' && quantity(owned_label(q, i)) == Some(
            q[i],
        ),
{
    reveal_strlit("-");
    reveal_strlit("x");
    if q.contains_key(i) {
        let d = decimal(q[i] as nat);
        lemma_decimal_digits(q[i] as nat);
        assert("x"@ + d =~= seq!['x'] + d);
        lemma_quantity_of_x_count(q[i]);
        assert(owned_label(q, i).len() > 1);
    }
}


proof fn lemma_last_index_after(p: Seq<char>, sep: char, q: Seq<char>)
    requires
        forall|i: int| 0 <= i < q.len() ==> q[i] != sep,
    ensures
        last_index_of(p.push(sep) + q, sep) == Some(p.len() as int),
    decreases q.len(),
{
    let s = p.push(sep) + q;
    if q.len() == 0 {
        assert(s =~= p.push(sep));
    } else {
        assert(s.drop_last() =~= p.push(sep) + q.drop_last());
        assert(s.last() == q.last());
        lemma_last_index_after(p, sep, q.drop_last());
    }
}

/// An entry `code=N` or `code:N` with a bare decimal number `N` reads as that code with
/// quantity `N` (a quantity of 0 as 1), where the code holds no `=` and `:` and does not
/// start with whitespace.
pub proof fn law_code_sep_number_reads_as_quantity(code: Seq<char>, sep: char, n: u32)
    requires
        sep == '=' || sep == ':',
        code.len() > 0,
        !is_ws(code[0]),
        forall|i: int| 0 <= i < code.len() ==> code[i] != '=' && code[i] != ':',
    ensures
        stash_entry(code + seq![sep] + decimal(n as nat)) == (extracted(code), at_least_one(n)),
{
    let d = decimal(n as nat);
    lemma_decimal_digits(n as nat);
    let s = code + seq![sep] + d;
    assert(s =~= code.push(sep) + d);
    assert(s[0] == code[0]);
    assert(s.last() == d.last());
    assert(is_digit(d[d.len() - 1]));
    lemma_digit_char_not_marker(d[d.len() - 1]);
    lemma_trim_of_unpadded(s);
    assert forall|i: int| 0 <= i < d.len() implies d[i] != '=' && d[i] != ':' by {
        lemma_digit_char_not_marker(d[i]);
    }
    lemma_last_index_after(code, sep, d);
    assert(s.skip(code.len() as int + 1) =~= d);
    assert(s.take(code.len() as int) =~= code);
    law_quantity_reads_decimal(n);
    if sep == ':' {
        assert forall|i: int| 0 <= i < s.len() implies s[i] != '=' by {
            if i < code.len() {
                assert(s[i] == code[i]);
            } else if i > code.len() {
                assert(s[i] == d[i - code.len() - 1]);
            }
        }
        lemma_no_last_index(s, '=');
    }
}

} // verus!
