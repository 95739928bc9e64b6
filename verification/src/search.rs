//! Expectation search: score a candidate guess by simulating the feedback
//! it would get against every still-possible secret, reducing the pool for
//! each, and averaging the remaining pool sizes; then pick the minimizer.
//!
//! The returned score is the numerator of that average: the summed
//! remaining-pool sizes, less one when the guess is itself a possible
//! secret (the tie-break that prefers guesses that could be the answer).
//! All candidates are scored against the same pool, so comparing these
//! integer numerators orders the guesses exactly as the means do.

use vstd::prelude::*;

use rayon::iter::IntoParallelRefIterator;
use rayon::iter::ParallelIterator;

use crate::feedback::feedback_spec;
use crate::feedback::get_feedback;
use crate::reduce::reduce_dict;
use crate::reduce::reduce_spec;
use crate::reduce::lemma_reduce_retains_guess;
use crate::Word;

verus! {

/// The size of the pool after reducing `dict` by the feedback that `guess`
/// earns against the hypothetical secret `secret`.
pub open spec fn remaining_after(dict: Seq<Seq<u8>>, guess: Seq<u8>, secret: Seq<u8>) -> int {
    reduce_spec(dict, guess, feedback_spec(secret, guess)).len() as int
}

/// Sum of `remaining_after` over the first `n` hypothetical secrets of the
/// pool.
pub open spec fn sum_remaining_prefix(dict: Seq<Seq<u8>>, guess: Seq<u8>, n: int) -> int
    decreases n,
{
    if n <= 0 {
        0
    } else {
        sum_remaining_prefix(dict, guess, n - 1) + remaining_after(dict, guess, dict[n - 1])
    }
}

/// The expectation-search score of a guess against a pool: the summed
/// remaining-pool sizes over every hypothetical secret, minus one when the
/// guess is a member of the pool. Dividing by the pool size gives the mean
/// remaining-candidates count; the pool size is the same for every
/// candidate, so the numerator alone ranks them.
pub open spec fn expect_score_num(dict: Seq<Seq<u8>>, guess: Seq<u8>) -> int {
    sum_remaining_prefix(dict, guess, dict.len() as int) - if dict.contains(guess) {
        1int
    } else {
        0int
    }
}

proof fn lemma_remaining_bounds(dict: Seq<Seq<u8>>, guess: Seq<u8>, secret: Seq<u8>)
    ensures
        0 <= remaining_after(dict, guess, secret) <= dict.len(),
{
    dict.lemma_filter_len(
        |w: Seq<u8>| crate::reduce::survives(w, guess, feedback_spec(secret, guess)),
    );
}

proof fn lemma_sum_prefix_bounds(dict: Seq<Seq<u8>>, guess: Seq<u8>, n: int)
    requires
        0 <= n,
    ensures
        0 <= sum_remaining_prefix(dict, guess, n),
        sum_remaining_prefix(dict, guess, n) <= n * dict.len(),
    decreases n,
{
    if n > 0 {
        lemma_sum_prefix_bounds(dict, guess, n - 1);
        lemma_remaining_bounds(dict, guess, dict[n - 1]);
        assert(n * dict.len() == (n - 1) * dict.len() + dict.len()) by (nonlinear_arith);
    }
}

proof fn lemma_sum_ge_term(dict: Seq<Seq<u8>>, guess: Seq<u8>, k: int, n: int)
    requires
        0 <= k < n,
    ensures
        sum_remaining_prefix(dict, guess, n) >= remaining_after(dict, guess, dict[k]),
    decreases n,
{
    lemma_remaining_bounds(dict, guess, dict[n - 1]);
    if k < n - 1 {
        lemma_sum_ge_term(dict, guess, k, n - 1);
    } else {
        lemma_sum_prefix_bounds(dict, guess, n - 1);
    }
}

/// Copy a word.
pub fn clone_word(w: &Word) -> (r: Word)
    ensures
        r@ == w@,
{
    let mut r: Vec<u8> = Vec::new();
    let n = w.len();
    for i in 0..n
        invariant
            n == w@.len(),
            r@.len() == i,
            forall|j: int| 0 <= j < i ==> r@[j] == w@[j],
    {
        r.push(w[i]);
    }
    proof {
        assert(r@ =~= w@);
    }
    r
}

/// Score one candidate guess against a pool of possible secrets: for every
/// pool word as hypothetical secret, generate its feedback for the guess
/// and count how many pool words would remain; return the summed counts,
/// minus one when the guess is itself in the pool.
pub fn get_expect_remain_after(dict: &Vec<Word>, guess: &Word) -> (score: u64)
    requires
        guess@.len() <= 255,
        forall|k: int| 0 <= k < dict@.len() ==> (#[trigger] dict@[k])@.len() == guess@.len(),
        dict@.len() < 0x1_0000_0000,
    ensures
        score as int == expect_score_num(dict.deep_view(), guess@),
{
    let ghost dd = dict.deep_view();
    let n = dict.len();
    let mut sum: u64 = 0;
    let mut in_dict = false;
    for k in 0..n
        invariant
            n == dict@.len() < 0x1_0000_0000,
            dd == dict.deep_view(),
            guess@.len() <= 255,
            forall|j: int| 0 <= j < dict@.len() ==> (#[trigger] dict@[j])@.len() == guess@.len(),
            sum as int == sum_remaining_prefix(dd, guess@, k as int),
            sum as int <= (k as int) * (n as int),
            in_dict == exists|j: int| 0 <= j < k as int && dd[j] == guess@,
    {
        let w = &dict[k];
        let fb = get_feedback(w, guess);
        let red = reduce_dict(dict, guess, &fb);
        proof {
            assert(dd[k as int] == dict@[k as int]@);
            assert(red.deep_view().len() == red@.len());
            assert(red@.len() as int == remaining_after(dd, guess@, dd[k as int]));
            lemma_remaining_bounds(dd, guess@, dd[k as int]);
            assert((k as int + 1) * (n as int) == (k as int) * (n as int) + n as int)
                by (nonlinear_arith);
            assert((k as int) * (n as int) <= 0xFFFF_FFFFi64 as int * 0xFFFF_FFFFi64 as int)
                by (nonlinear_arith)
                requires
                    0 <= k as int <= 0xFFFF_FFFFi64 as int,
                    0 <= n as int <= 0xFFFF_FFFFi64 as int,
            ;
        }
        sum = sum + (red.len() as u64);
        if w == guess {
            proof {
                assert(dd[k as int] =~= guess@);
            }
            in_dict = true;
        }
    }
    if in_dict {
        proof {
            assert(dd.contains(guess@));
            let k = choose|k: int| 0 <= k < dd.len() && dd[k] == guess@;
            lemma_reduce_retains_guess(dd, guess@);
            assert(remaining_after(dd, guess@, dd[k]) >= 1);
            lemma_sum_ge_term(dd, guess@, k, n as int);
        }
        sum - 1
    } else {
        sum
    }
}

/// Relies on rayon's `par_iter().map(..).collect::<Vec<_>>()` over a `Vec`,
/// which yields exactly one result per input element, in the input order.
/// The closure only calls the verified `get_expect_remain_after`, so each
/// slot holds that function's result for the corresponding pool word.
#[verifier::external_body]
fn par_map_expect(dict: &Vec<Word>, pool: &Vec<Word>) -> (r: Vec<u64>)
    requires
        dict@.len() < 0x1_0000_0000,
        forall|j: int| 0 <= j < pool@.len() ==> (#[trigger] pool@[j])@.len() <= 255,
        forall|j: int, k: int|
            0 <= j < pool@.len() && 0 <= k < dict@.len() ==> dict@[k]@.len() == pool@[j]@.len(),
    ensures
        r@.len() == pool@.len(),
        forall|i: int|
            0 <= i < pool@.len() ==> #[trigger] r@[i] as int == expect_score_num(
                dict.deep_view(),
                pool.deep_view()[i],
            ),
{
    pool.par_iter().map(|w| get_expect_remain_after(dict, w)).collect()
}

/// Pick the guess with the lowest expectation-search score from `pool`,
/// scored against the possible secrets `dict`; ties go to the earliest
/// pool position. Returns the winning word and its score.
pub fn get_best_expect(dict: &Vec<Word>, pool: &Vec<Word>) -> (r: (Word, u64))
    requires
        pool@.len() > 0,
        dict@.len() < 0x1_0000_0000,
        forall|j: int| 0 <= j < pool@.len() ==> (#[trigger] pool@[j])@.len() <= 255,
        forall|j: int, k: int|
            0 <= j < pool@.len() && 0 <= k < dict@.len() ==> dict@[k]@.len() == pool@[j]@.len(),
    ensures
        r.1 as int == expect_score_num(dict.deep_view(), r.0@),
        forall|j: int|
            0 <= j < pool@.len() ==> expect_score_num(dict.deep_view(), #[trigger] pool.deep_view()[j])
                >= r.1 as int,
        exists|k: int|
            0 <= k < pool@.len() && pool.deep_view()[k] == r.0@ && (forall|j: int|
                0 <= j < k ==> expect_score_num(dict.deep_view(), #[trigger] pool.deep_view()[j])
                    > r.1 as int),
{
    let ghost dd = dict.deep_view();
    let ghost pd = pool.deep_view();
    let scores = par_map_expect(dict, pool);
    let n = pool.len();
    let mut best: usize = 0;
    for i in 1..n
        invariant
            n == pool@.len() == scores@.len(),
            dd == dict.deep_view(),
            pd == pool.deep_view(),
            forall|j: int|
                0 <= j < pool@.len() ==> #[trigger] scores@[j] as int == expect_score_num(dd, pd[j]),
            best < i,
            forall|j: int| 0 <= j < i ==> scores@[best as int] <= scores@[j],
            forall|j: int| 0 <= j < best ==> scores@[j] > scores@[best as int],
    {
        if scores[i] < scores[best] {
            best = i;
        }
    }
    let w = clone_word(&pool[best]);
    let s = scores[best];
    proof {
        assert(pd[best as int] == pool@[best as int]@);
        assert(pd[best as int] == w@);
        assert forall|j: int| 0 <= j < pool@.len() implies expect_score_num(
            dd,
            #[trigger] pool.deep_view()[j],
        ) >= s as int by {
            assert(scores@[best as int] <= scores@[j]);
            assert(scores@[j] as int == expect_score_num(dd, pd[j]));
        }
        assert forall|j: int| 0 <= j < best implies expect_score_num(
            dd,
            #[trigger] pool.deep_view()[j],
        ) > s as int by {
            assert(scores@[j] > scores@[best as int]);
            assert(scores@[j] as int == expect_score_num(dd, pd[j]));
        }
        let b = best as int;
        assert(0 <= b < pool@.len() && pool.deep_view()[b] == w@ && (forall|j: int|
            0 <= j < b ==> expect_score_num(dd, #[trigger] pool.deep_view()[j]) > s as int));
    }
    (w, s)
}

/// The tie-break in the score is strict: when the guess is a member of the
/// pool, its score is strictly below the plain summed remaining count.
pub proof fn lemma_in_pool_score_strictly_less(dict: Seq<Seq<u8>>, guess: Seq<u8>)
    requires
        dict.contains(guess),
    ensures
        expect_score_num(dict, guess) < sum_remaining_prefix(dict, guess, dict.len() as int),
{
}

} // verus!
