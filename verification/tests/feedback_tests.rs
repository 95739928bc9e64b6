use wordle_solver::error::SolverError;
use wordle_solver::feedback::get_feedback;
use wordle_solver::feedback::read_feedback;
use wordle_solver::feedback::LettFb;

fn word(s: &str) -> Vec<u8> {
    s.bytes().collect()
}

#[test]
fn feedback_against_itself_is_all_green() {
    // For all words, the feedback of a word against itself is all-exact;
    // checked here on concrete values.
    for s in ["WINCE", "ERROR", "AAAAA", "SLATE"] {
        let w = word(s);
        let fb = get_feedback(&w, &w);
        assert_eq!(fb, vec![LettFb::Green; 5]);
    }
}

#[test]
fn feedback_wince_slate() {
    // Only the final E matches.
    let fb = get_feedback(&word("WINCE"), &word("SLATE"));
    assert_eq!(
        fb,
        vec![LettFb::Grey, LettFb::Grey, LettFb::Grey, LettFb::Grey, LettFb::Green]
    );
}

#[test]
fn feedback_doubled_letter_in_secret() {
    // Secret ERROR holds R more than once; the guess RADIO shows a single R
    // at a non-matching position, which must be marked present-elsewhere,
    // not absent. The O is present elsewhere too.
    let fb = get_feedback(&word("ERROR"), &word("RADIO"));
    assert_eq!(
        fb,
        vec![LettFb::Yellow, LettFb::Grey, LettFb::Grey, LettFb::Grey, LettFb::Yellow]
    );
    // With ARGOT, the guess's one R sits on a matching position and is
    // consumed as exact, leaving no shared R for other positions.
    let fb2 = get_feedback(&word("ERROR"), &word("ARGOT"));
    assert_eq!(
        fb2,
        vec![LettFb::Grey, LettFb::Green, LettFb::Grey, LettFb::Green, LettFb::Grey]
    );
}

#[test]
fn feedback_duplicate_guess_letters_bounded_by_secret() {
    // Guess has three Es, secret PUREE has two, none position-aligned: the
    // two earliest guess Es are marked present-elsewhere and the third is
    // absent.
    let fb = get_feedback(&word("PUREE"), &word("EEEXX"));
    assert_eq!(
        fb,
        vec![LettFb::Yellow, LettFb::Yellow, LettFb::Grey, LettFb::Grey, LettFb::Grey]
    );
}

#[test]
fn feedback_marks_never_exceed_shared_count() {
    // For any letter, green plus yellow marks stay within the smaller of
    // the two letter counts; checked on a duplicate-heavy pair.
    let secret = word("ABABA");
    let guess = word("BAAAB");
    let fb = get_feedback(&secret, &guess);
    for l in [b'A', b'B'] {
        let marked = guess
            .iter()
            .zip(fb.iter())
            .filter(|(g, f)| **g == l && **f != LettFb::Grey)
            .count();
        let in_secret = secret.iter().filter(|c| **c == l).count();
        let in_guess = guess.iter().filter(|c| **c == l).count();
        assert!(marked <= in_secret.min(in_guess));
    }
}

#[test]
fn read_feedback_decodes_symbols() {
    let fb = read_feedback("*+-", 3).unwrap();
    assert_eq!(fb, vec![LettFb::Green, LettFb::Yellow, LettFb::Grey]);
    let fb5 = read_feedback("--*+-", 5).unwrap();
    assert_eq!(
        fb5,
        vec![LettFb::Grey, LettFb::Grey, LettFb::Green, LettFb::Yellow, LettFb::Grey]
    );
}

#[test]
fn read_feedback_rejects_bad_symbol() {
    assert_eq!(read_feedback("*+x", 3), Err(SolverError::Decode));
}

#[test]
fn read_feedback_rejects_wrong_length() {
    assert_eq!(read_feedback("*+", 3), Err(SolverError::Decode));
    assert_eq!(read_feedback("*+--", 3), Err(SolverError::Decode));
}
