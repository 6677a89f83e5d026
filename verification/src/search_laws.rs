//! How many substitutes a search lists.

use vstd::prelude::*;

use crate::color::ColorRecord;
use crate::matching::{is_best_ranking, is_candidate, is_listed, MatchResult};
use crate::search::clamp_count;
use crate::stash_search::spin_count;

verus! {

/// A ranking asked for `count` substitutes lists `count` of them where `cands`, a list of
/// distinct colours that may be offered, has at least that many.
pub proof fn law_ranking_fills_the_count(
    rs: Seq<ColorRecord>,
    target: int,
    allowed: Option<Set<usize>>,
    distances: Seq<u64>,
    count: int,
    res: Seq<MatchResult>,
    cands: Seq<int>,
)
    requires
        is_best_ranking(rs, target, allowed, distances, count, res),
        cands.no_duplicates(),
        forall|k: int| 0 <= k < cands.len() ==> is_candidate(rs, target, allowed, #[trigger] cands[k]),
        count <= cands.len(),
    ensures
        res.len() == count,
{
    if res.len() < count {
        let listed = res.map_values(|m: MatchResult| m.color_index as int);
        assert forall|j: int| cands.to_set().contains(j) implies listed.to_set().contains(j) by {
            let k = choose|k: int| 0 <= k < cands.len() && cands[k] == j;
            assert(is_candidate(rs, target, allowed, cands[k]));
            assert(is_listed(res, j));
            let l = choose|l: int| 0 <= l < res.len() && #[trigger] res[l].color_index == j;
            assert(listed[l] == j);
        }
        cands.unique_seq_to_set();
        listed.lemma_cardinality_of_set();
        vstd::set_lib::lemma_len_subset(cands.to_set(), listed.to_set());
        assert(false);
    }
}

/// A search asked for a number of substitutes from 3 to 25 lists exactly that many where at
/// least that many colours (`cands`, distinct, each with a code other than the target's) can
/// be offered; asked for fewer than 3 it lists 3, asked for more than 25 it lists 25.
pub proof fn law_search_lists_the_count_asked(
    rs: Seq<ColorRecord>,
    target: int,
    distances: Seq<u64>,
    asked: int,
    res: Seq<MatchResult>,
    cands: Seq<int>,
)
    requires
        is_best_ranking(rs, target, None, distances, clamp_count(asked), res),
        cands.no_duplicates(),
        forall|k: int| 0 <= k < cands.len() ==> is_candidate(rs, target, None, #[trigger] cands[k]),
        cands.len() >= (if asked < 3 {
            3
        } else if asked > 25 {
            25
        } else {
            asked
        }),
    ensures
        3 <= asked <= 25 ==> res.len() == asked,
        asked < 3 ==> res.len() == 3,
        asked > 25 ==> res.len() == 25,
{
    law_ranking_fills_the_count(rs, target, None, distances, clamp_count(asked), res, cands);
}

/// A stash search asked for a number of substitutes from 3 to 25 ranks exactly that many;
/// fewer than 3 ranks 3, more than 25 ranks 25: where at least that many colours (`cands`,
/// distinct, each allowed) can be offered, that many are listed.
pub proof fn law_stash_search_lists_the_count_asked(
    rs: Seq<ColorRecord>,
    target: int,
    allowed: Option<Set<usize>>,
    distances: Seq<u64>,
    asked: int,
    res: Seq<MatchResult>,
    cands: Seq<int>,
)
    requires
        is_best_ranking(rs, target, allowed, distances, spin_count(asked), res),
        cands.no_duplicates(),
        forall|k: int| 0 <= k < cands.len() ==> is_candidate(rs, target, allowed, #[trigger] cands[k]),
        cands.len() >= (if asked < 3 {
            3
        } else if asked > 25 {
            25
        } else {
            asked
        }),
    ensures
        3 <= asked <= 25 ==> res.len() == asked,
        asked < 3 ==> res.len() == 3,
        asked > 25 ==> res.len() == 25,
{
    law_ranking_fills_the_count(rs, target, allowed, distances, spin_count(asked), res, cands);
}

} // verus!
