//! The order of strings, and sorting by it.

use vstd::prelude::*;

use crate::text::{chars_of, string_of, views};

verus! {

broadcast use vstd::seq_lib::group_to_multiset_ensures;

/// `a` comes before `b` in the order of `String`: compared character by character by code
/// point (the order of their UTF-8 bytes), a proper prefix first.
pub open spec fn text_lt(a: Seq<char>, b: Seq<char>) -> bool
    decreases a.len(),
{
    if a.len() == 0 {
        b.len() > 0
    } else if b.len() == 0 {
        false
    } else if a[0] < b[0] {
        true
    } else if a[0] > b[0] {
        false
    } else {
        text_lt(a.drop_first(), b.drop_first())
    }
}

pub proof fn lemma_text_lt_irreflexive(a: Seq<char>)
    ensures
        !text_lt(a, a),
    decreases a.len(),
{
    if a.len() > 0 {
        lemma_text_lt_irreflexive(a.drop_first());
    }
}

pub proof fn lemma_text_lt_transitive(a: Seq<char>, b: Seq<char>, c: Seq<char>)
    requires
        text_lt(a, b),
        text_lt(b, c),
    ensures
        text_lt(a, c),
    decreases a.len(),
{
    if a.len() > 0 && b.len() > 0 && c.len() > 0 && a[0] == b[0] && b[0] == c[0] {
        lemma_text_lt_transitive(a.drop_first(), b.drop_first(), c.drop_first());
    }
}

pub proof fn lemma_text_lt_total(a: Seq<char>, b: Seq<char>)
    requires
        a != b,
    ensures
        text_lt(a, b) || text_lt(b, a),
    decreases a.len(),
{
    if a.len() > 0 && b.len() > 0 && a[0] == b[0] {
        if a.drop_first() == b.drop_first() {
            assert(a.drop_first().len() == b.drop_first().len());
            assert(a.len() == b.len());
            assert forall|i: int| 0 <= i < a.len() implies a[i] == b[i] by {
                if i > 0 {
                    assert(a[i] == a.drop_first()[i - 1]);
                    assert(b[i] == b.drop_first()[i - 1]);
                }
            }
            assert(a =~= b);
        }
        lemma_text_lt_total(a.drop_first(), b.drop_first());
    } else if a.len() == 0 && b.len() == 0 {
        assert(a =~= b);
    }
}

pub proof fn lemma_text_lt_asymmetric(a: Seq<char>, b: Seq<char>)
    requires
        text_lt(a, b),
    ensures
        !text_lt(b, a),
{
    if text_lt(b, a) {
        lemma_text_lt_transitive(a, b, a);
        lemma_text_lt_irreflexive(a);
    }
}

/// Whether `a` comes before `b`.
pub fn text_less(a: &[char], b: &[char]) -> (r: bool)
    ensures
        r == text_lt(a@, b@),
{
    let mut i: usize = 0;
    assert(a@.skip(0) =~= a@ && b@.skip(0) =~= b@);
    while i < a.len() && i < b.len() && a[i] == b[i]
        invariant
            i <= a@.len() && i <= b@.len(),
            text_lt(a@, b@) == text_lt(a@.skip(i as int), b@.skip(i as int)),
        decreases a@.len() - i,
    {
        assert(a@.skip(i as int).drop_first() =~= a@.skip(i + 1));
        assert(b@.skip(i as int).drop_first() =~= b@.skip(i + 1));
        i += 1;
    }
    if i == a.len() {
        i < b.len()
    } else if i == b.len() {
        false
    } else {
        a[i] < b[i]
    }
}

/// Each text is no later than the next, in the order of `String`.
pub open spec fn is_sorted(s: Seq<Seq<char>>) -> bool {
    forall|i: int, j: int| 0 <= i < j < s.len() ==> !text_lt(#[trigger] s[j], #[trigger] s[i])
}

/// The texts of `v` in the order of `String`.
pub fn sort_texts(v: &Vec<Vec<char>>) -> (r: Vec<Vec<char>>)
    ensures
        is_sorted(views(r@)),
        views(r@).to_multiset() == views(v@).to_multiset(),
{
    let mut r: Vec<Vec<char>> = Vec::new();
    let mut i: usize = 0;
    assert(views(v@).take(0) =~= Seq::<Seq<char>>::empty());
    assert(views(r@) =~= Seq::<Seq<char>>::empty());
    while i < v.len()
        invariant
            i <= v@.len(),
            is_sorted(views(r@)),
            views(r@).to_multiset() == views(v@).take(i as int).to_multiset(),
        decreases v@.len() - i,
    {
        let x = crate::text::copy_range(v[i].as_slice(), 0, v[i].len());
        assert(v@[i as int]@.subrange(0, v@[i as int]@.len() as int) =~= v@[i as int]@);
        let mut p: usize = 0;
        while p < r.len() && !text_less(x.as_slice(), r[p].as_slice())
            invariant
                p <= r@.len(),
                forall|k: int| 0 <= k < p ==> !text_lt(x@, #[trigger] r@[k]@),
            decreases r@.len() - p,
        {
            p += 1;
        }
        let ghost old_r = views(r@);
        let ghost xv = x@;
        r.insert(p, x);
        proof {
            let nr = views(r@);
            assert(nr =~= old_r.insert(p as int, xv));
            assert forall|a: int, b: int| 0 <= a < b < nr.len() implies !text_lt(#[trigger] nr[b], #[trigger] nr[a]) by {
                if b < p {
                    assert(nr[a] == old_r[a] && nr[b] == old_r[b]);
                } else if b == p {
                    assert(nr[a] == old_r[a]);
                    assert(!text_lt(xv, old_r[a]));
                } else if a < p {
                    assert(nr[a] == old_r[a] && nr[b] == old_r[b - 1]);
                } else if a == p {
                    assert(nr[b] == old_r[b - 1]);
                    assert(text_lt(xv, old_r[p as int]));
                    if b - 1 > p {
                        assert(!text_lt(old_r[b - 1], old_r[p as int]));
                        if old_r[b - 1] != old_r[p as int] {
                            lemma_text_lt_total(old_r[b - 1], old_r[p as int]);
                            lemma_text_lt_transitive(xv, old_r[p as int], old_r[b - 1]);
                        }
                    }
                    lemma_text_lt_asymmetric(xv, old_r[b - 1]);
                } else {
                    assert(nr[a] == old_r[a - 1] && nr[b] == old_r[b - 1]);
                }
            }
            assert(nr.remove(p as int) =~= old_r);
            assert(nr.to_multiset() =~= old_r.to_multiset().insert(xv));
            assert(views(v@).take(i + 1) =~= views(v@).take(i as int).push(xv));
        }
        i += 1;
    }
    assert(views(v@).take(v@.len() as int) =~= views(v@));
    r
}

/// The strings of a vector, each as its characters.
pub open spec fn texts(v: Seq<String>) -> Seq<Seq<char>> {
    v.map_values(|s: String| s@)
}

/// The strings of `v` in the order of `String`, as `sort` leaves them.
pub fn sort_strings(v: Vec<String>) -> (r: Vec<String>)
    ensures
        is_sorted(texts(r@)),
        texts(r@).to_multiset() == texts(v@).to_multiset(),
{
    let mut chars: Vec<Vec<char>> = Vec::new();
    let mut i: usize = 0;
    while i < v.len()
        invariant
            i <= v@.len(),
            views(chars@) == texts(v@).take(i as int),
        decreases v@.len() - i,
    {
        let c = chars_of(v[i].as_str());
        let ghost before = views(chars@);
        chars.push(c);
        assert(views(chars@) =~= before.push(v@[i as int]@));
        assert(texts(v@).take(i + 1) =~= texts(v@).take(i as int).push(v@[i as int]@));
        i += 1;
    }
    assert(texts(v@).take(v@.len() as int) =~= texts(v@));
    let sorted = sort_texts(&chars);
    let mut r: Vec<String> = Vec::new();
    let mut k: usize = 0;
    while k < sorted.len()
        invariant
            k <= sorted@.len(),
            texts(r@) == views(sorted@).take(k as int),
        decreases sorted@.len() - k,
    {
        let s = string_of(sorted[k].as_slice());
        let ghost before = texts(r@);
        r.push(s);
        assert(texts(r@) =~= before.push(sorted@[k as int]@));
        assert(views(sorted@).take(k + 1) =~= views(sorted@).take(k as int).push(sorted@[k as int]@));
        k += 1;
    }
    assert(views(sorted@).take(sorted@.len() as int) =~= views(sorted@));
    r
}

} // verus!
