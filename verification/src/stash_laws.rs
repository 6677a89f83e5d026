//! How the reading of a stash text relates to the readings of its parts: two texts joined by
//! a line break read as both stashes together.

use vstd::prelude::*;

use crate::code::normalized;
use crate::color::{first_with_code, ColorRecord};
use crate::stash::{
    at_least_one, line_stash_entries, stash_entry, lines_entries, sat_add, stash_entries, tally, tally_entry, without_comment,
    StashTally,
};
use crate::text::{
    is_ws, lemma_split_any_nonempty, lines, split_any, strip_cr, strip_crs, trim,
    trim_start,
};

verus! {

proof fn lemma_trim_start_push_ws(x: Seq<char>, c: char)
    requires
        is_ws(c),
    ensures
        trim_start(x.push(c)) == (if trim_start(x).len() == 0 {
            Seq::<char>::empty()
        } else {
            trim_start(x).push(c)
        }),
    decreases x.len(),
{
    if x.len() == 0 {
        assert(seq![c].drop_first() =~= Seq::<char>::empty());
        assert(x.push(c) =~= seq![c]);
        assert(trim_start(seq![c]) == trim_start(Seq::<char>::empty()));
        assert(trim_start(x) =~= Seq::<char>::empty());
    } else {
        assert(x.push(c)[0] == x[0]);
        if is_ws(x[0]) {
            assert(x.push(c).drop_first() =~= x.drop_first().push(c));
            lemma_trim_start_push_ws(x.drop_first(), c);
        }
    }
}

pub(crate) proof fn lemma_trim_push_ws(x: Seq<char>, c: char)
    requires
        is_ws(c),
    ensures
        trim(x.push(c)) == trim(x),
{
    lemma_trim_start_push_ws(x, c);
    let t = trim_start(x);
    if t.len() > 0 {
        assert(t.push(c).drop_last() =~= t);
    }
}

/// A carriage return at the end of a line does not change what the line lists.
proof fn lemma_line_entries_strip_cr(x: Seq<char>)
    ensures
        line_stash_entries(strip_cr(x)) == (if x.len() == 0 {
            Seq::<Seq<char>>::empty()
        } else {
            line_stash_entries(x)
        }),
{
    if x.len() == 0 {
        assert(split_any(x, seq!['#'])[0] == Seq::<char>::empty());
        assert(trim(Seq::<char>::empty()) =~= Seq::<char>::empty());
    } else if x.last() == '\r' {
        let y = x.drop_last();
        assert(y.push('\r') =~= x);
        let sp = split_any(y, seq!['#']);
        lemma_split_any_nonempty(y, seq!['#']);
        assert(!seq!['#'].contains('\r')) by {
            if seq!['#'].contains('\r') {
                let k = choose|k: int| 0 <= k < 1 && seq!['#'][k] == '\r';
            }
        }
        assert(split_any(x, seq!['#']) == sp.update(sp.len() - 1, sp.last().push('\r')));
        if sp.len() == 1 {
            lemma_trim_push_ws(sp[0], '\r');
        }
        assert(without_comment(x) == without_comment(y));
    }
}

pub(crate) proof fn lemma_split_join(a: Seq<char>, b: Seq<char>, sep: char)
    ensures
        split_any(a + seq![sep] + b, seq![sep]) == split_any(a, seq![sep]) + split_any(
            b,
            seq![sep],
        ),
    decreases b.len(),
{
    assert(seq![sep].contains(sep)) by {
        assert(seq![sep][0] == sep);
    }
    if b.len() == 0 {
        assert(a + seq![sep] + b =~= a.push(sep));
        assert(a.push(sep).drop_last() =~= a);
    } else {
        let s = a + seq![sep] + b;
        lemma_split_join(a, b.drop_last(), sep);
        assert(s.drop_last() =~= a + seq![sep] + b.drop_last());
        assert(s.last() == b.last());
        lemma_split_any_nonempty(b.drop_last(), seq![sep]);
        let pa = split_any(a, seq![sep]);
        let pb = split_any(b.drop_last(), seq![sep]);
        if seq![sep].contains(b.last()) {
            assert((pa + pb).push(Seq::empty()) =~= pa + pb.push(Seq::empty()));
        } else {
            assert((pa + pb).update((pa + pb).len() - 1, (pa + pb).last().push(b.last())) =~= pa
                + pb.update(pb.len() - 1, pb.last().push(b.last())));
        }
    }
}

proof fn lemma_lines_entries_concat(l1: Seq<Seq<char>>, l2: Seq<Seq<char>>)
    ensures
        lines_entries(l1 + l2) == lines_entries(l1) + lines_entries(l2),
    decreases l2.len(),
{
    if l2.len() == 0 {
        assert(l1 + l2 =~= l1);
        assert(lines_entries(l1) + lines_entries(l2) =~= lines_entries(l1));
    } else {
        lemma_lines_entries_concat(l1, l2.drop_last());
        assert((l1 + l2).drop_last() =~= l1 + l2.drop_last());
        assert((l1 + l2).last() == l2.last());
        assert(lines_entries(l1) + lines_entries(l2.drop_last()) + line_stash_entries(l2.last())
            =~= lines_entries(l1) + (lines_entries(l2.drop_last()) + line_stash_entries(
            l2.last(),
        )));
    }
}

proof fn lemma_lines_entries_single(l: Seq<Seq<char>>, x: Seq<char>)
    ensures
        lines_entries(l.push(x)) == lines_entries(l) + line_stash_entries(x),
{
    assert(l.push(x).drop_last() =~= l);
}

/// The entries of two stash texts joined by a line break are the entries of the first
/// followed by those of the second.
proof fn lemma_stash_entries_join(a: Seq<char>, b: Seq<char>)
    ensures
        stash_entries(a + seq!['\n'] + b) == stash_entries(a) + stash_entries(b),
{
    let nl = seq!['\n'];
    let pa = split_any(a, nl);
    let pb = split_any(b, nl);
    lemma_split_join(a, b, '\n');
    lemma_split_any_nonempty(a, nl);
    lemma_split_any_nonempty(b, nl);
    let p = pa + pb;
    assert(p.drop_last() =~= pa + pb.drop_last());
    assert(p.last() == pb.last());
    assert(strip_crs(pa + pb.drop_last()) =~= strip_crs(pa) + strip_crs(pb.drop_last()));
    let lb = lines(b);
    if pb.last().len() == 0 {
        assert(lines(a + nl + b) =~= strip_crs(pa) + lb);
    } else {
        assert(lines(a + nl + b) =~= strip_crs(pa) + lb);
    }
    lemma_lines_entries_concat(strip_crs(pa), lb);
    let head = strip_crs(pa.drop_last());
    assert(strip_crs(pa) =~= head.push(strip_cr(pa.last())));
    lemma_lines_entries_single(head, strip_cr(pa.last()));
    lemma_line_entries_strip_cr(pa.last());
    if pa.last().len() == 0 {
        assert(lines(a) == head);
        assert(lines_entries(head) + Seq::<Seq<char>>::empty() =~= lines_entries(head));
    } else {
        assert(lines(a) == head.push(pa.last()));
        lemma_lines_entries_single(head, pa.last());
    }
}

/// The quantity of colour `i` in `q`, 0 where it has none.
pub open spec fn held(q: Map<usize, u32>, i: usize) -> u32 {
    if q.contains_key(i) {
        q[i]
    } else {
        0
    }
}

/// Two quantity maps together: every colour of either, with its two quantities added (capped
/// at `u32::MAX`).
pub open spec fn merged(q1: Map<usize, u32>, q2: Map<usize, u32>) -> Map<usize, u32> {
    Map::new(
        |i: usize| q1.contains_key(i) || q2.contains_key(i),
        |i: usize| sat_add(held(q1, i), held(q2, i)),
    )
}

proof fn lemma_sat_add(a: u32, b: u32, c: u32)
    ensures
        sat_add(sat_add(a, b), c) == sat_add(a, sat_add(b, c)),
        sat_add(a, 0) == a,
        sat_add(0, a) == a,
{
}

proof fn lemma_tally_concat(rs: Seq<ColorRecord>, e1: Seq<Seq<char>>, e2: Seq<Seq<char>>)
    ensures
        tally(rs, e1 + e2).quantities == merged(
            tally(rs, e1).quantities,
            tally(rs, e2).quantities,
        ),
        tally(rs, e1 + e2).unknown == tally(rs, e1).unknown + tally(rs, e2).unknown,
    decreases e2.len(),
{
    let q1 = tally(rs, e1).quantities;
    if e2.len() == 0 {
        assert(e1 + e2 =~= e1);
        assert forall|i: usize| q1.contains_key(i) implies merged(q1, Map::empty())[i] == q1[i] by {
            lemma_sat_add(q1[i], 0, 0);
        }
        assert(merged(q1, Map::empty()) =~= q1);
        assert(tally(rs, e1).unknown + Seq::<Seq<char>>::empty() =~= tally(rs, e1).unknown);
    } else {
        let init = e2.drop_last();
        let e = e2.last();
        lemma_tally_concat(rs, e1, init);
        assert((e1 + e2).drop_last() =~= e1 + init);
        assert((e1 + e2).last() == e);
        let t = tally(rs, e1 + init);
        let t2 = tally(rs, init);
        let q2 = t2.quantities;
        let after = tally_entry(rs, t, e);
        let after2 = tally_entry(rs, t2, e);
        assert(tally(rs, e1 + e2) == after);
        assert(tally(rs, e2) == after2);
        let cleaned = trim(e);
        if cleaned.len() > 0 {
            let (code, q) = stash_entry(cleaned);
            if normalized(code).len() > 0 {
                match first_with_code(rs, normalized(code)) {
                    Some(i) => {
                        let idx = i as usize;
                        let k = at_least_one(q);
                        let m = merged(q1, q2);
                        lemma_sat_add(held(q1, idx), held(q2, idx), k);
                        lemma_sat_add(0, 0, 0);
                        assert(held(m, idx) == sat_add(held(q1, idx), held(q2, idx)));
                        assert(after.quantities == m.insert(idx, sat_add(held(m, idx), k)));
                        assert(after2.quantities == q2.insert(idx, sat_add(held(q2, idx), k)));
                        assert(merged(q1, after2.quantities) =~= after.quantities);
                    },
                    None => {
                        assert((tally(rs, e1).unknown + t2.unknown).push(cleaned) =~= tally(
                            rs,
                            e1,
                        ).unknown + t2.unknown.push(cleaned));
                    },
                }
            }
        }
    }
}

/// Two stash texts joined by a line break read as both stashes together: every colour of
/// either, with its two quantities added (capped at `u32::MAX`), and the unknown entries of
/// the first followed by those of the second.
pub proof fn law_stash_texts_joined(rs: Seq<ColorRecord>, a: Seq<char>, b: Seq<char>)
    ensures
        tally(rs, stash_entries(a + seq!['\n'] + b)).quantities == merged(
            tally(rs, stash_entries(a)).quantities,
            tally(rs, stash_entries(b)).quantities,
        ),
        tally(rs, stash_entries(a + seq!['\n'] + b)).unknown == tally(rs, stash_entries(a)).unknown
            + tally(rs, stash_entries(b)).unknown,
{
    lemma_stash_entries_join(a, b);
    lemma_tally_concat(rs, stash_entries(a), stash_entries(b));
}

} // verus!
