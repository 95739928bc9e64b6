use wordle_solver::error::SolverError;
use wordle_solver::feedback::get_feedback;
use wordle_solver::feedback::LettFb;
use wordle_solver::reduce::reduce_dict;
use wordle_solver::reduce::reduce_dict_checked;
use wordle_solver::reduce::replay_history;
use wordle_solver::word_to_string;

fn word(s: &str) -> Vec<u8> {
    s.bytes().collect()
}

fn dict(words: &[&str]) -> Vec<Vec<u8>> {
    words.iter().map(|s| word(s)).collect()
}

#[test]
fn reduce_keeps_consistent_words() {
    // Feedback of SLATE against WINCE: S, L, A, T absent; final E exact.
    let pool = dict(&["WINCE", "MINCE", "SLATE", "EVENT", "PRIDE"]);
    let guess = word("SLATE");
    let fb = get_feedback(&word("WINCE"), &guess);
    let reduced = reduce_dict(&pool, &guess, &fb);
    assert_eq!(reduced, dict(&["WINCE", "MINCE", "PRIDE"]));
}

#[test]
fn reduce_never_grows() {
    let pool = dict(&["WINCE", "MINCE", "SLATE", "EVENT"]);
    let guess = word("SLATE");
    let fb = get_feedback(&word("EVENT"), &guess);
    let reduced = reduce_dict(&pool, &guess, &fb);
    assert!(reduced.len() <= pool.len());
}

#[test]
fn reduce_retains_guess_on_its_own_feedback() {
    // Reducing by the feedback the guess earns against itself keeps the
    // guess in the pool.
    let pool = dict(&["WINCE", "SLATE", "EVENT"]);
    let guess = word("SLATE");
    let fb = get_feedback(&guess, &guess);
    let reduced = reduce_dict(&pool, &guess, &fb);
    assert!(reduced.contains(&guess));
}

#[test]
fn reduce_is_idempotent() {
    let pool = dict(&["WINCE", "MINCE", "SLATE", "EVENT", "CRANE"]);
    let guess = word("CRANE");
    let fb = get_feedback(&word("MINCE"), &guess);
    let once = reduce_dict(&pool, &guess, &fb);
    let twice = reduce_dict(&once, &guess, &fb);
    assert_eq!(once, twice);
}

#[test]
fn reduce_duplicate_letter_cap() {
    // Guess EEXXS against secret EVENT-like feedback: first E exact, second
    // E grey would cap E at 1; a word with two Es must drop.
    let guess = word("EELSY");
    // Feedback: E exact, E grey (secret has one E), L grey, S grey, Y grey.
    let fb = vec![LettFb::Green, LettFb::Grey, LettFb::Grey, LettFb::Grey, LettFb::Grey];
    let pool = dict(&["EVENT", "EXTRA", "EMBER"]);
    let reduced = reduce_dict(&pool, &guess, &fb);
    // EVENT and EMBER hold two Es, over the cap; EXTRA keeps exactly one.
    assert_eq!(reduced, dict(&["EXTRA"]));
}

#[test]
fn reduce_checked_reports_empty_pool() {
    // A feedback that greys the only letter of the only word empties the
    // pool and reports the documented error instead of crashing.
    let pool = dict(&["AAAAA"]);
    let guess = word("AAAAA");
    let fb = vec![LettFb::Grey; 5];
    let r = reduce_dict_checked(&pool, &guess, &fb);
    assert_eq!(r, Err(SolverError::EmptyPool));
}

#[test]
fn empty_pool_falls_back_to_extended_dictionary() {
    // After the pool runs empty, replaying the guess history against the
    // extended dictionary offers the surviving alternatives, without a
    // crash.
    let pool = dict(&["BUDDY"]);
    let guess = word("BUDDY");
    let fb = get_feedback(&word("MADAM"), &guess);
    let reduced = reduce_dict(&pool, &guess, &fb);
    assert!(reduced.is_empty());
    let extended = dict(&["BUDDY", "MADAM", "MEDAL", "CIGAR"]);
    let hist = vec![(guess, fb)];
    let alternatives = replay_history(&extended, &hist);
    assert!(alternatives.contains(&word("MADAM")));
    assert!(!alternatives.contains(&word("BUDDY")));
}

#[test]
fn replay_history_applies_all_pairs_in_order() {
    let extended = dict(&["WINCE", "MINCE", "SLATE", "PRIDE"]);
    let g1 = word("SLATE");
    let f1 = get_feedback(&word("WINCE"), &g1);
    let g2 = word("PRIDE");
    let f2 = get_feedback(&word("WINCE"), &g2);
    let hist = vec![(g1, f1), (g2, f2)];
    let out = replay_history(&extended, &hist);
    assert_eq!(out, dict(&["WINCE", "MINCE"]));
}

#[test]
fn word_to_string_renders_letters() {
    assert_eq!(word_to_string(&word("HELLO")), "HELLO".to_string());
    assert_eq!(word_to_string(&word("")), "".to_string());
}
