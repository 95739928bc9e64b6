use wordle_solver::dist::LettCountDist;
use wordle_solver::dist::LettLocDist;
use wordle_solver::feedback::get_feedback;
use wordle_solver::heur::contains_word;
use wordle_solver::heur::filter_top_heur;
use wordle_solver::reduce::reduce_dict;
use wordle_solver::search::get_best_expect;
use wordle_solver::search::get_expect_remain_after;
use wordle_solver::select::recommend_from_scores;

fn word(s: &str) -> Vec<u8> {
    s.bytes().collect()
}

fn dict(words: &[&str]) -> Vec<Vec<u8>> {
    words.iter().map(|s| word(s)).collect()
}

#[test]
fn expect_remain_counts_mean_numerator() {
    // Two disjoint words: either hypothetical secret leaves exactly one
    // candidate, and the guess is itself in the pool, so the adjusted sum
    // is 1 + 1 - 1.
    let pool = dict(&["AB", "CD"]);
    let score = get_expect_remain_after(&pool, &word("AB"));
    assert_eq!(score, 1);
}

#[test]
fn expect_remain_without_membership_has_no_discount() {
    // EF shares no letter with either pool word, so every feedback is
    // all-grey and nothing is eliminated between the two candidates.
    let pool = dict(&["AB", "CD"]);
    let score = get_expect_remain_after(&pool, &word("EF"));
    assert_eq!(score, 4);
}

#[test]
fn in_pool_guess_scores_strictly_less_than_raw_sum() {
    // The membership discount is strict: the adjusted score of a pool
    // member is below the plain summed remaining counts.
    let pool = dict(&["WINCE", "MINCE", "SLATE"]);
    let guess = word("SLATE");
    let mut raw_sum: u64 = 0;
    for secret in &pool {
        let fb = get_feedback(secret, &guess);
        raw_sum += reduce_dict(&pool, &guess, &fb).len() as u64;
    }
    let score = get_expect_remain_after(&pool, &guess);
    assert!(score < raw_sum);
    assert_eq!(score, raw_sum - 1);
}

#[test]
fn best_expect_picks_minimizer() {
    // AB distinguishes the pool perfectly and is a possible answer; EF
    // eliminates nothing. AB must win with the lower score.
    let pool = dict(&["AB", "CD"]);
    let candidates = dict(&["EF", "AB"]);
    let (best, score) = get_best_expect(&pool, &candidates);
    assert_eq!(best, word("AB"));
    assert_eq!(score, 1);
}

#[test]
fn best_expect_breaks_ties_by_encounter_order() {
    // AB and CD are symmetric, so both score the same; the earlier pool
    // entry wins.
    let pool = dict(&["AB", "CD"]);
    let (best, score) = get_best_expect(&pool, &pool);
    assert_eq!(best, word("AB"));
    assert_eq!(score, 1);
}

#[test]
fn count_dist_buckets_include_zero() {
    // From the words PEARS and APPLE: P occurs once in one word and twice
    // in the other; A and E once in each; R and S once in one word and not
    // at all in the other.
    let d = dict(&["PEARS", "APPLE"]);
    let m = LettCountDist::new(&d, 5);
    assert_eq!(m.dict_size(), 2);
    assert_eq!(m.word_len(), 5);
    assert_eq!(m.freq(b'P', 1), 1);
    assert_eq!(m.freq(b'P', 2), 1);
    assert_eq!(m.freq(b'P', 0), 0);
    assert_eq!(m.freq(b'A', 1), 2);
    assert_eq!(m.freq(b'A', 0), 0);
    assert_eq!(m.freq(b'R', 1), 1);
    assert_eq!(m.freq(b'R', 0), 1);
    assert_eq!(m.freq(b'Z', 0), 2);
    assert_eq!(m.freq(b'E', 1), 2);
}

#[test]
fn loc_dist_counts_letters_per_position() {
    let d = dict(&["PEARS", "APPLE"]);
    let m = LettLocDist::new(&d, 5);
    assert_eq!(m.dict_size(), 2);
    assert_eq!(m.count_at(0, b'P'), 1);
    assert_eq!(m.count_at(0, b'A'), 1);
    assert_eq!(m.count_at(2, b'A'), 1);
    assert_eq!(m.count_at(2, b'P'), 1);
    assert_eq!(m.count_at(4, b'S'), 1);
    assert_eq!(m.count_at(4, b'E'), 1);
    assert_eq!(m.count_at(4, b'Z'), 0);
}

#[test]
fn filter_top_heur_thresholds_each_source_separately() {
    // Pool cutoff with n = 2 over scores [5, 1, 9] is 5, keeping the first
    // and third words; the dictionary cutoff over [4, 7] keeps both.
    let pool = dict(&["AAAAA", "BBBBB", "CCCCC"]);
    let pool_scores = vec![5u64, 1, 9];
    let d = dict(&["DDDDD", "EEEEE"]);
    let dict_scores = vec![4u64, 7];
    let r = filter_top_heur(&d, &dict_scores, &pool, &pool_scores, 2);
    assert_eq!(r, dict(&["AAAAA", "CCCCC", "DDDDD", "EEEEE"]));
}

#[test]
fn filter_top_heur_deduplicates_union() {
    // A word kept from both sources appears once, at its first position.
    let pool = dict(&["AAAAA", "BBBBB"]);
    let pool_scores = vec![9u64, 8];
    let d = dict(&["BBBBB", "CCCCC"]);
    let dict_scores = vec![6u64, 7];
    let r = filter_top_heur(&d, &dict_scores, &pool, &pool_scores, 2);
    assert_eq!(r, dict(&["AAAAA", "BBBBB", "CCCCC"]));
}

#[test]
fn filter_top_heur_keeps_everything_when_n_exceeds_size() {
    let pool = dict(&["AAAAA", "BBBBB"]);
    let pool_scores = vec![3u64, 1];
    let d = dict(&["CCCCC"]);
    let dict_scores = vec![2u64];
    let r = filter_top_heur(&d, &dict_scores, &pool, &pool_scores, 24);
    assert_eq!(r, dict(&["AAAAA", "BBBBB", "CCCCC"]));
}

#[test]
fn recommend_from_scores_runs_both_stages() {
    // With n = 1, the pool cutoff keeps only CCCCC (score 9) and the
    // solution-dictionary cutoff keeps only AAAAA (score 7). AAAAA splits
    // the two solutions and is itself a possible answer (adjusted score 1);
    // CCCCC eliminates nothing (score 4), so AAAAA wins.
    let solutions = dict(&["AAAAA", "BBBBB"]);
    let dict_scores = vec![7u64, 3];
    let pool = dict(&["AAAAA", "BBBBB", "CCCCC"]);
    let pool_scores = vec![5u64, 1, 9];
    let (best, score) = recommend_from_scores(&solutions, &dict_scores, &pool, &pool_scores, 1);
    assert_eq!(best, word("AAAAA"));
    assert_eq!(score, 1);
}

#[test]
fn contains_word_finds_members() {
    let d = dict(&["AB", "CD"]);
    assert!(contains_word(&d, &word("CD")));
    assert!(!contains_word(&d, &word("EF")));
}
