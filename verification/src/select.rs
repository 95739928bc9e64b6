//! The two-stage guess selector: rank every guess by the cheap entropy
//! proxy (scores computed by the caller), keep each source's own top-`n`
//! slice, and run the exact expectation search over the deduplicated union,
//! scored against the current solution pool.

use vstd::prelude::*;

use crate::heur::cutoff_spec;
use crate::heur::filter_top_heur;
use crate::heur::keep_at_least;
use crate::heur::lemma_cutoff_is_reached;
use crate::heur::lemma_dedup_nonempty;
use crate::heur::lemma_dedup_subset;
use crate::heur::lemma_keep_nonempty;
use crate::heur::lemma_keep_subset;
use crate::heur::selector_candidates;
use crate::search::expect_score_num;
use crate::search::get_best_expect;
use crate::Word;

verus! {

/// Recommend the next guess: among the candidate set that the entropy
/// pre-filter keeps (`selector_candidates`), return the first guess with
/// the lowest expectation-search score against the solution dictionary,
/// together with that score.
pub fn recommend_from_scores(
    dict: &Vec<Word>,
    dict_scores: &Vec<u64>,
    pool: &Vec<Word>,
    pool_scores: &Vec<u64>,
    n: usize,
) -> (r: (Word, u64))
    requires
        dict@.len() == dict_scores@.len(),
        pool@.len() == pool_scores@.len(),
        dict@.len() > 0,
        pool@.len() > 0,
        n > 0,
        dict@.len() < 0x1_0000_0000,
        forall|k: int| 0 <= k < dict@.len() ==> (#[trigger] dict@[k])@.len() <= 255,
        forall|j: int, k: int|
            0 <= j < pool@.len() && 0 <= k < dict@.len() ==> dict@[k]@.len() == pool@[j]@.len(),
    ensures
        ({
            let cands = selector_candidates(
                pool.deep_view(),
                pool_scores@,
                dict.deep_view(),
                dict_scores@,
                n as int,
            );
            &&& r.1 as int == expect_score_num(dict.deep_view(), r.0@)
            &&& forall|j: int|
                0 <= j < cands.len() ==> expect_score_num(dict.deep_view(), #[trigger] cands[j])
                    >= r.1 as int
            &&& exists|k: int|
                0 <= k < cands.len() && cands[k] == r.0@ && (forall|j: int|
                    0 <= j < k ==> expect_score_num(dict.deep_view(), #[trigger] cands[j])
                        > r.1 as int)
        }),
{
    let ghost pd = pool.deep_view();
    let ghost dd = dict.deep_view();
    let candidates = filter_top_heur(dict, dict_scores, pool, pool_scores, n);
    let ghost keep_p = keep_at_least(pd, pool_scores@, cutoff_spec(pool_scores@, n as int));
    let ghost keep_d = keep_at_least(dd, dict_scores@, cutoff_spec(dict_scores@, n as int));
    proof {
        // The pool alone already puts a word past its own cutoff, so the
        // candidate set is never empty.
        lemma_cutoff_is_reached(pool_scores@, n as int);
        lemma_keep_nonempty(pd, pool_scores@, cutoff_spec(pool_scores@, n as int));
        lemma_dedup_nonempty(keep_p + keep_d);
        assert(candidates@.len() > 0);
        // All dictionary words share one length (they each match the first
        // pool word's length).
        assert forall|k: int| 0 <= k < dict@.len() implies (#[trigger] dict@[k])@.len()
            == dict@[0]@.len() by {
            assert(dict@[k]@.len() == pool@[0]@.len());
            assert(dict@[0]@.len() == pool@[0]@.len());
        }
        // Every candidate is a pool or dictionary word, so it has the
        // common word length.
        assert forall|j: int| 0 <= j < candidates@.len() implies (#[trigger] candidates@[j])@.len()
            == dict@[0]@.len() by {
            let x = candidates.deep_view()[j];
            assert(candidates.deep_view().contains(x));
            lemma_dedup_subset(keep_p + keep_d, x);
            let i = choose|i: int| 0 <= i < (keep_p + keep_d).len() && (keep_p + keep_d)[i] == x;
            if i < keep_p.len() {
                assert(keep_p[i] == x);
                assert(keep_p.contains(x));
                lemma_keep_subset(pd, pool_scores@, cutoff_spec(pool_scores@, n as int), x);
                let m = choose|m: int| 0 <= m < pd.len() && pd[m] == x;
                assert(pd[m] == pool@[m]@);
                assert(dict@[0]@.len() == pool@[m]@.len());
            } else {
                assert(keep_d[i - keep_p.len()] == x);
                assert(keep_d.contains(x));
                lemma_keep_subset(dd, dict_scores@, cutoff_spec(dict_scores@, n as int), x);
                let m = choose|m: int| 0 <= m < dd.len() && dd[m] == x;
                assert(dd[m] == dict@[m]@);
            }
            assert(candidates@[j]@ == x);
        }
    }
    let r = get_best_expect(dict, &candidates);
    r
}

} // verus!
