//! Ranking the catalogue colours closest to a target colour.

use std::collections::HashSet;
use vstd::prelude::*;

use crate::code::{normalize_code, normalized};
use crate::color::{records, ColorRecord, DmcColor};
use crate::text::{chars_eq, chars_of};

verus! {

broadcast use vstd::std_specs::hash::group_hash_axioms;

/// A substitute: a colour's position in the catalogue and its distance from the target.
///
/// The distance is held as an order key: the bit pattern of the non-negative floating-point
/// Lab distance, whose order as an unsigned integer is the order of the distances.
#[derive(Clone, Copy, Debug)]
pub struct MatchResult {
    pub color_index: usize,
    pub distance: u64,
}

/// `a` ranks before `b`: a smaller distance, or the same distance and an earlier colour.
pub open spec fn ranks_before(a: (u64, int), b: (u64, int)) -> bool {
    a.0 < b.0 || (a.0 == b.0 && a.1 < b.1)
}

pub open spec fn rank_key(m: MatchResult) -> (u64, int) {
    (m.distance, m.color_index as int)
}

/// Colour `i` may be offered as a substitute for colour `target`: its code differs from the
/// target's once both are normalised, and it is among the allowed colours where a set of
/// them is given.
pub open spec fn is_candidate(
    rs: Seq<ColorRecord>,
    target: int,
    allowed: Option<Set<usize>>,
    i: int,
) -> bool {
    &&& 0 <= i < rs.len()
    &&& normalized(rs[i].code) != normalized(rs[target].code)
    &&& match allowed {
        Some(a) => a.contains(i as usize),
        None => true,
    }
}

/// Colour `j` is among the results.
pub open spec fn is_listed(res: Seq<MatchResult>, j: int) -> bool {
    exists|k: int| 0 <= k < res.len() && #[trigger] res[k].color_index == j
}

/// `res` is the ranking of the candidates by distance (ties by catalogue order), cut to its
/// first `count` entries: every entry is a candidate with its own distance, the entries come
/// in strictly increasing rank, there are at most `count` of them, and a candidate that is
/// left out ranks after every entry of a full list.
pub open spec fn is_best_ranking(
    rs: Seq<ColorRecord>,
    target: int,
    allowed: Option<Set<usize>>,
    distances: Seq<u64>,
    count: int,
    res: Seq<MatchResult>,
) -> bool {
    &&& forall|k: int|
        0 <= k < res.len() ==> is_candidate(rs, target, allowed, #[trigger] res[k].color_index as int)
            && res[k].distance == distances[res[k].color_index as int]
    &&& forall|k: int, l: int|
        0 <= k < l < res.len() ==> ranks_before(rank_key(#[trigger] res[k]), rank_key(#[trigger] res[l]))
    &&& res.len() <= count
    &&& forall|j: int|
        is_candidate(rs, target, allowed, j) ==> is_listed(res, j) || (res.len() == count
            && forall|k: int|
            0 <= k < res.len() ==> ranks_before(rank_key(#[trigger] res[k]), (distances[j], j)))
}

pub open spec fn allowed_view(allowed: Option<&HashSet<usize>>) -> Option<Set<usize>> {
    match allowed {
        Some(a) => Some(a@),
        None => None,
    }
}

/// The `count` colours closest to colour `target_index`, closest first, among those with
/// another code and, where `allowed_indexes` is given, among the allowed ones.
/// `distances[i]` is the distance key of colour `i` from the target.
pub fn best_matches(
    colors: &[DmcColor],
    target_index: usize,
    count: usize,
    allowed_indexes: Option<&HashSet<usize>>,
    distances: &[u64],
) -> (res: Vec<MatchResult>)
    requires
        target_index < colors@.len(),
        distances@.len() == colors@.len(),
    ensures
        is_best_ranking(
            records(colors@),
            target_index as int,
            allowed_view(allowed_indexes),
            distances@,
            count as int,
            res@,
        ),
{
    let ghost rs = records(colors@);
    let ghost allowed = allowed_view(allowed_indexes);
    let target_code = normalize_code(colors[target_index].code.as_str());
    let target_chars = chars_of(target_code.as_str());
    assert(rs[target_index as int] == colors@[target_index as int]@);
    let mut res: Vec<MatchResult> = Vec::new();
    let mut i: usize = 0;
    while i < colors.len()
        invariant
            i <= colors@.len() == distances@.len(),
            rs == records(colors@),
            allowed == allowed_view(allowed_indexes),
            target_index < colors@.len(),
            target_chars@ == normalized(rs[target_index as int].code),
            res@.len() <= count,
            forall|k: int|
                0 <= k < res@.len() ==> is_candidate(rs, target_index as int, allowed, #[trigger] res@[k].color_index as int)
                    && res@[k].color_index < i
                    && res@[k].distance == distances@[res@[k].color_index as int],
            forall|k: int, l: int|
                0 <= k < l < res@.len() ==> ranks_before(rank_key(#[trigger] res@[k]), rank_key(#[trigger] res@[l])),
            forall|j: int|
                0 <= j < i && is_candidate(rs, target_index as int, allowed, j) ==> is_listed(res@, j) || (
                res@.len() == count && forall|k: int|
                    0 <= k < res@.len() ==> ranks_before(rank_key(#[trigger] res@[k]), (distances@[j], j))),
        decreases colors@.len() - i,
    {
        let code = normalize_code(colors[i].code.as_str());
        let code_chars = chars_of(code.as_str());
        assert(rs[i as int] == colors@[i as int]@);
        let differs = !chars_eq(code_chars.as_slice(), target_chars.as_slice());
        let permitted = match allowed_indexes {
            Some(a) => a.contains(&i),
            None => true,
        };
        if differs && permitted {
            assert(is_candidate(rs, target_index as int, allowed, i as int));
            let d = distances[i];
            let mut p: usize = 0;
            while p < res.len() && res[p].distance <= d
                invariant
                    p <= res@.len(),
                    forall|k: int| 0 <= k < p ==> (#[trigger] res@[k]).distance <= d,
                decreases res@.len() - p,
            {
                p += 1;
            }
            let ghost old_res = res@;
            proof {
                assert forall|k: int| p <= k < old_res.len() implies (#[trigger] old_res[k]).distance > d by {
                    if k > p {
                        assert(ranks_before(rank_key(old_res[p as int]), rank_key(old_res[k])));
                    }
                }
            }
            if p < count {
                let entry = MatchResult { color_index: i, distance: d };
                res.insert(p, entry);
                let ghost inserted = res@;
                assert(inserted == old_res.insert(p as int, entry));
                assert forall|k: int, l: int|
                    0 <= k < l < inserted.len() implies ranks_before(rank_key(#[trigger] inserted[k]), rank_key(#[trigger] inserted[l])) by {
                    if l < p {
                        assert(inserted[k] == old_res[k] && inserted[l] == old_res[l]);
                    } else if l == p {
                        assert(inserted[k] == old_res[k]);
                    } else if k < p {
                        assert(inserted[k] == old_res[k] && inserted[l] == old_res[l - 1]);
                    } else if k == p {
                        assert(inserted[l] == old_res[l - 1]);
                    } else {
                        assert(inserted[k] == old_res[k - 1] && inserted[l] == old_res[l - 1]);
                    }
                }
                if res.len() > count {
                    res.pop();
                }
                proof {
                    let new_res = res@;
                    assert(new_res.len() <= count);
                    assert forall|k: int| 0 <= k < new_res.len() implies new_res[k] == inserted[k] by {}
                    assert(is_listed(new_res, i as int)) by {
                        assert(new_res[p as int].color_index == i);
                    }
                    assert forall|j: int|
                        0 <= j < i + 1 && is_candidate(rs, target_index as int, allowed, j) implies is_listed(new_res, j) || (
                        new_res.len() == count && forall|k: int|
                            0 <= k < new_res.len() ==> ranks_before(rank_key(#[trigger] new_res[k]), (distances@[j], j))) by {
                        if j < i {
                            if is_listed(old_res, j) {
                                let k0 = choose|k: int| 0 <= k < old_res.len() && #[trigger] old_res[k].color_index == j;
                                let k1 = if k0 < p { k0 } else { k0 + 1 };
                                assert(inserted[k1].color_index == j);
                                if k1 < new_res.len() {
                                    assert(new_res[k1].color_index == j);
                                } else {
                                    assert(inserted.len() == count + 1);
                                    assert forall|k: int| 0 <= k < new_res.len() implies ranks_before(rank_key(#[trigger] new_res[k]), (distances@[j], j)) by {
                                        assert(ranks_before(rank_key(inserted[k]), rank_key(inserted[k1])));
                                    }
                                }
                            } else {
                                assert(old_res.len() == count);
                                assert(ranks_before(rank_key(old_res[p as int]), (distances@[j], j)));
                                assert forall|k: int| 0 <= k < new_res.len() implies ranks_before(rank_key(#[trigger] new_res[k]), (distances@[j], j)) by {
                                    if k < p {
                                        assert(new_res[k] == old_res[k]);
                                    } else if k > p {
                                        assert(new_res[k] == old_res[k - 1]);
                                    }
                                }
                            }
                        }
                    }
                }
            } else {
                proof {
                    assert(p == res@.len());
                    assert forall|k: int| 0 <= k < res@.len() implies ranks_before(rank_key(#[trigger] res@[k]), (distances@[i as int], i as int)) by {}
                }
            }
        }
        i += 1;
    }
    res
}

} // verus!
