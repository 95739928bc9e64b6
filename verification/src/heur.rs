//! The cheap pre-filter of the two-stage guess selector: given entropy
//! scores for the guess pool and for the solution dictionary (computed by
//! the caller, encoded so that larger means more informative), keep from
//! each source the words whose score reaches that source's own top-`n`
//! threshold, and return the deduplicated union.
//!
//! The two sources are thresholded independently on purpose: a good
//! solution word can be drowned out in the much larger guess pool, so
//! collapsing the two thresholds into one would change which guesses
//! survive.

use vstd::prelude::*;
use vstd::relations::sorted_by;
use vstd::relations::total_ordering;
use vstd::seq_lib::lemma_sorted_unique;

use crate::search::clone_word;
use crate::Word;

verus! {

/// The ordering the scores are ranked by.
pub open spec fn score_leq() -> spec_fn(u64, u64) -> bool {
    |a: u64, b: u64| a <= b
}

/// The top-`n` threshold of a score list: the value at position `len - n`
/// of the ascending sort, clamped to the smallest score when `n` exceeds
/// the list length.
pub open spec fn cutoff_spec(scores: Seq<u64>, n: int) -> u64
    recommends
        scores.len() > 0,
{
    let sorted = scores.sort_by(score_leq());
    let idx = if n > scores.len() {
        0int
    } else {
        scores.len() - n
    };
    sorted[idx]
}

/// The words whose paired score reaches `c`, in their original order.
pub open spec fn keep_at_least(words: Seq<Seq<u8>>, scores: Seq<u64>, c: u64) -> Seq<Seq<u8>>
    recommends
        words.len() == scores.len(),
    decreases words.len(),
{
    if words.len() == 0 {
        Seq::empty()
    } else {
        let prefix = keep_at_least(words.drop_last(), scores.drop_last(), c);
        if scores.last() >= c {
            prefix.push(words.last())
        } else {
            prefix
        }
    }
}

/// The first occurrence of every distinct word, in order of first
/// occurrence.
pub open spec fn dedup_spec(s: Seq<Seq<u8>>) -> Seq<Seq<u8>>
    decreases s.len(),
{
    if s.len() == 0 {
        s
    } else {
        let d = dedup_spec(s.drop_last());
        if d.contains(s.last()) {
            d
        } else {
            d.push(s.last())
        }
    }
}

/// The candidate set of the two-stage selector: from each source the words
/// whose score reaches that source's own top-`n` threshold, pool words
/// first, without duplicates.
pub open spec fn selector_candidates(
    pool_words: Seq<Seq<u8>>,
    pool_scores: Seq<u64>,
    dict_words: Seq<Seq<u8>>,
    dict_scores: Seq<u64>,
    n: int,
) -> Seq<Seq<u8>> {
    dedup_spec(
        keep_at_least(pool_words, pool_scores, cutoff_spec(pool_scores, n)) + keep_at_least(
            dict_words,
            dict_scores,
            cutoff_spec(dict_scores, n),
        ),
    )
}

proof fn lemma_score_leq_total()
    ensures
        total_ordering(score_leq()),
{
}

/// Every kept word is one of the input words.
pub proof fn lemma_keep_subset(words: Seq<Seq<u8>>, scores: Seq<u64>, c: u64, x: Seq<u8>)
    requires
        words.len() == scores.len(),
        keep_at_least(words, scores, c).contains(x),
    ensures
        words.contains(x),
    decreases words.len(),
{
    let k = keep_at_least(words, scores, c);
    let prefix = keep_at_least(words.drop_last(), scores.drop_last(), c);
    if scores.last() >= c && k.last() == x && k.len() == prefix.len() + 1 {
        assert(words[words.len() - 1] == x);
    } else {
        let i = choose|i: int| 0 <= i < k.len() && k[i] == x;
        if scores.last() >= c && i < k.len() - 1 {
            assert(prefix[i] == x);
            assert(prefix.contains(x));
        }
        lemma_keep_subset(words.drop_last(), scores.drop_last(), c, x);
        let j = choose|j: int| 0 <= j < words.drop_last().len() && words.drop_last()[j] == x;
        assert(words[j] == x);
    }
}

/// Every deduplicated word is one of the input words.
pub proof fn lemma_dedup_subset(s: Seq<Seq<u8>>, x: Seq<u8>)
    requires
        dedup_spec(s).contains(x),
    ensures
        s.contains(x),
    decreases s.len(),
{
    let d = dedup_spec(s.drop_last());
    if s.last() == x {
        assert(s[s.len() - 1] == x);
    } else {
        assert(d.contains(x));
        lemma_dedup_subset(s.drop_last(), x);
        let j = choose|j: int| 0 <= j < s.drop_last().len() && s.drop_last()[j] == x;
        assert(s[j] == x);
    }
}

/// Deduplication keeps at least one word of a non-empty input.
pub proof fn lemma_dedup_nonempty(s: Seq<Seq<u8>>)
    requires
        s.len() > 0,
    ensures
        dedup_spec(s).len() > 0,
{
    let d = dedup_spec(s.drop_last());
    if d.contains(s.last()) {
        assert(d.len() > 0);
    }
}

/// Some score reaches the cutoff: the cutoff is itself one of the scores.
pub proof fn lemma_cutoff_is_reached(scores: Seq<u64>, n: int)
    requires
        scores.len() > 0,
        n > 0,
    ensures
        exists|j: int| 0 <= j < scores.len() && #[trigger] scores[j] >= cutoff_spec(scores, n),
{
    broadcast use vstd::seq_lib::group_to_multiset_ensures;

    lemma_score_leq_total();
    scores.lemma_sort_by_ensures(score_leq());
    let sorted = scores.sort_by(score_leq());
    let idx = if n > scores.len() {
        0int
    } else {
        scores.len() - n
    };
    let c = sorted[idx];
    assert(sorted.to_multiset().len() == sorted.len());
    assert(scores.to_multiset().len() == scores.len());
    assert(sorted.len() == scores.len());
    assert(0 <= idx < sorted.len());
    assert(sorted.contains(c));
    assert(sorted.to_multiset().contains(c));
    assert(scores.to_multiset().contains(c));
    assert(scores.contains(c));
    let j = choose|j: int| 0 <= j < scores.len() && scores[j] == c;
    assert(scores[j] >= cutoff_spec(scores, n));
}

/// A word whose score reaches the cutoff is kept, so the kept set of a
/// source with at least one such word is non-empty.
pub proof fn lemma_keep_nonempty(words: Seq<Seq<u8>>, scores: Seq<u64>, c: u64)
    requires
        words.len() == scores.len(),
        exists|j: int| 0 <= j < scores.len() && #[trigger] scores[j] >= c,
    ensures
        keep_at_least(words, scores, c).len() > 0,
    decreases words.len(),
{
    let j = choose|j: int| 0 <= j < scores.len() && #[trigger] scores[j] >= c;
    if j < scores.len() - 1 {
        assert(scores.drop_last()[j] >= c);
        lemma_keep_nonempty(words.drop_last(), scores.drop_last(), c);
    }
}

/// Sort a score list ascending by insertion, proven equal to the
/// spec-level sort.
fn sort_scores(v: &Vec<u64>) -> (r: Vec<u64>)
    ensures
        r@ == v@.sort_by(score_leq()),
        r@.len() == v@.len(),
{
    let n = v.len();
    let mut r: Vec<u64> = Vec::new();
    proof {
        broadcast use vstd::seq_lib::group_to_multiset_ensures;

        assert(v@.take(0) =~= Seq::<u64>::empty());
        assert(r@.to_multiset() =~= v@.take(0).to_multiset());
    }
    for i in 0..n
        invariant
            n == v@.len(),
            r@.len() == i,
            sorted_by(r@, score_leq()),
            r@.to_multiset() == v@.take(i as int).to_multiset(),
    {
        let x = v[i];
        let mut pos: usize = 0;
        while pos < r.len() && r[pos] <= x
            invariant
                pos <= r@.len(),
                forall|j: int| 0 <= j < pos ==> r@[j] <= x,
            decreases r@.len() - pos,
        {
            pos = pos + 1;
        }
        let ghost prev = r@;
        r.insert(pos, x);
        proof {
            broadcast use vstd::seq_lib::group_to_multiset_ensures;

            assert(r@ == prev.insert(pos as int, x));
            assert forall|a: int, b: int| 0 <= a < b < r@.len() implies #[trigger] score_leq()(
                r@[a],
                r@[b],
            ) by {
                if a < pos as int && b == pos as int {
                    assert(r@[a] == prev[a] && r@[b] == x);
                } else if a == pos as int && b > pos as int {
                    assert(r@[a] == x && r@[b] == prev[b - 1]);
                    assert(prev[pos as int] > x);
                    assert(score_leq()(prev[pos as int], prev[b - 1]));
                } else if a < pos as int && b > pos as int {
                    assert(r@[a] == prev[a] && r@[b] == prev[b - 1]);
                    assert(score_leq()(prev[a], prev[b - 1]));
                } else if b < pos as int {
                    assert(r@[a] == prev[a] && r@[b] == prev[b]);
                    assert(score_leq()(prev[a], prev[b]));
                } else if a > pos as int {
                    assert(r@[a] == prev[a - 1] && r@[b] == prev[b - 1]);
                    assert(score_leq()(prev[a - 1], prev[b - 1]));
                }
            }
            assert(v@.take(i as int + 1) =~= v@.take(i as int).push(x));
            assert(r@.to_multiset() =~= v@.take(i as int + 1).to_multiset());
        }
    }
    proof {
        lemma_score_leq_total();
        assert(v@.take(n as int) =~= v@);
        v@.lemma_sort_by_ensures(score_leq());
        lemma_sorted_unique(r@, v@.sort_by(score_leq()), score_leq());
    }
    r
}

/// The top-`n` threshold of a score list.
fn cutoff(scores: &Vec<u64>, n: usize) -> (r: u64)
    requires
        scores@.len() > 0,
        n > 0,
    ensures
        r == cutoff_spec(scores@, n as int),
{
    let sorted = sort_scores(scores);
    let len = sorted.len();
    let idx = if n > len {
        0
    } else {
        len - n
    };
    sorted[idx]
}

/// Whether `w` occurs in `ws`.
pub fn contains_word(ws: &Vec<Word>, w: &Word) -> (r: bool)
    ensures
        r == ws.deep_view().contains(w@),
{
    let n = ws.len();
    for i in 0..n
        invariant
            n == ws@.len(),
            forall|j: int| 0 <= j < i ==> ws.deep_view()[j] != w@,
    {
        if ws[i] == *w {
            proof {
                assert(ws.deep_view()[i as int] =~= w@);
            }
            return true;
        }
        proof {
            assert(ws.deep_view()[i as int] == ws@[i as int]@);
            assert(ws.deep_view()[i as int] != w@);
        }
    }
    false
}

/// Keep, from the guess pool and from the solution dictionary, the words
/// whose entropy score reaches the top-`n` threshold of their own source,
/// and return the union without duplicates (first occurrence kept; pool
/// words first). Scores pair with words by position.
pub fn filter_top_heur(dict: &Vec<Word>, dict_scores: &Vec<u64>, pool: &Vec<Word>, pool_scores: &Vec<
    u64,
>, n: usize) -> (r: Vec<Word>)
    requires
        dict@.len() == dict_scores@.len(),
        pool@.len() == pool_scores@.len(),
        dict@.len() > 0,
        pool@.len() > 0,
        n > 0,
    ensures
        r.deep_view() == selector_candidates(
            pool.deep_view(),
            pool_scores@,
            dict.deep_view(),
            dict_scores@,
            n as int,
        ),
{
    let cut_pool = cutoff(pool_scores, n);
    let cut_dict = cutoff(dict_scores, n);
    let ghost pd = pool.deep_view();
    let ghost dd = dict.deep_view();
    let mut combined: Vec<Word> = Vec::new();
    proof {
        assert(pd.take(0) =~= Seq::<Seq<u8>>::empty());
        assert(pool_scores@.take(0) =~= Seq::<u64>::empty());
        assert(combined.deep_view() =~= keep_at_least(pd.take(0), pool_scores@.take(0), cut_pool));
    }
    let np = pool.len();
    for i in 0..np
        invariant
            np == pool@.len() == pool_scores@.len(),
            pd == pool.deep_view(),
            combined.deep_view() == keep_at_least(
                pd.take(i as int),
                pool_scores@.take(i as int),
                cut_pool,
            ),
    {
        let ghost prevc = combined.deep_view();
        if pool_scores[i] >= cut_pool {
            let w = clone_word(&pool[i]);
            combined.push(w);
        }
        proof {
            assert(pd.take(i as int + 1).drop_last() =~= pd.take(i as int));
            assert(pool_scores@.take(i as int + 1).drop_last() =~= pool_scores@.take(i as int));
            assert(pd.take(i as int + 1).last() == pd[i as int]);
            assert(pd[i as int] == pool@[i as int]@);
            assert(pool_scores@.take(i as int + 1).last() == pool_scores@[i as int]);
            if pool_scores@[i as int] >= cut_pool {
                assert(combined.deep_view() =~= prevc.push(pd[i as int]));
            }
            assert(combined.deep_view() =~= keep_at_least(
                pd.take(i as int + 1),
                pool_scores@.take(i as int + 1),
                cut_pool,
            ));
        }
    }
    let ghost keep_pool = keep_at_least(pd, pool_scores@, cut_pool);
    proof {
        assert(pd.take(np as int) =~= pd);
        assert(pool_scores@.take(np as int) =~= pool_scores@);
        assert(combined.deep_view() == keep_pool);
    }
    let nd = dict.len();
    for i in 0..nd
        invariant
            nd == dict@.len() == dict_scores@.len(),
            dd == dict.deep_view(),
            combined.deep_view() == keep_pool + keep_at_least(
                dd.take(i as int),
                dict_scores@.take(i as int),
                cut_dict,
            ),
    {
        let ghost prevc = combined.deep_view();
        if dict_scores[i] >= cut_dict {
            let w = clone_word(&dict[i]);
            combined.push(w);
        }
        proof {
            assert(dd.take(i as int + 1).drop_last() =~= dd.take(i as int));
            assert(dict_scores@.take(i as int + 1).drop_last() =~= dict_scores@.take(i as int));
            assert(dd.take(i as int + 1).last() == dd[i as int]);
            assert(dd[i as int] == dict@[i as int]@);
            assert(dict_scores@.take(i as int + 1).last() == dict_scores@[i as int]);
            if dict_scores@[i as int] >= cut_dict {
                assert(combined.deep_view() =~= prevc.push(dd[i as int]));
                assert(combined.deep_view() =~= keep_pool + keep_at_least(
                    dd.take(i as int),
                    dict_scores@.take(i as int),
                    cut_dict,
                ).push(dd[i as int]));
            }
            assert(combined.deep_view() =~= keep_pool + keep_at_least(
                dd.take(i as int + 1),
                dict_scores@.take(i as int + 1),
                cut_dict,
            ));
        }
    }
    let ghost all = keep_pool + keep_at_least(dd, dict_scores@, cut_dict);
    proof {
        assert(dd.take(nd as int) =~= dd);
        assert(dict_scores@.take(nd as int) =~= dict_scores@);
        assert(combined.deep_view() == all);
    }
    // Deduplicate, keeping first occurrences.
    let mut out: Vec<Word> = Vec::new();
    let nc = combined.len();
    proof {
        assert(combined.deep_view().take(0) =~= Seq::<Seq<u8>>::empty());
        assert(out.deep_view() =~= dedup_spec(combined.deep_view().take(0)));
    }
    for i in 0..nc
        invariant
            nc == combined@.len(),
            combined.deep_view() == all,
            out.deep_view() == dedup_spec(all.take(i as int)),
    {
        let ghost prevo = out.deep_view();
        if !contains_word(&out, &combined[i]) {
            let w = clone_word(&combined[i]);
            out.push(w);
        }
        proof {
            assert(all.take(i as int + 1).drop_last() =~= all.take(i as int));
            assert(all.take(i as int + 1).last() == all[i as int]);
            assert(all[i as int] == combined@[i as int]@);
            if !prevo.contains(combined@[i as int]@) {
                assert(out.deep_view() =~= prevo.push(all[i as int]));
            }
            assert(out.deep_view() =~= dedup_spec(all.take(i as int + 1)));
        }
    }
    proof {
        assert(all.take(nc as int) =~= all);
    }
    out
}

} // verus!
