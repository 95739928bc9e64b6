use wordle_solver::counter::Counter;
use wordle_solver::error::SolverError;

fn word(s: &str) -> Vec<u8> {
    s.bytes().collect()
}

#[test]
fn counter_new_is_empty() {
    let c = Counter::new();
    assert!(c.is_empty());
    assert_eq!(c.get(b'A'), 0);
    assert!(!c.contains_key(b'A'));
}

#[test]
fn counter_insert_and_get() {
    let mut c = Counter::new();
    c.insert(b'A');
    c.insert(b'A');
    c.insert(b'B');
    assert_eq!(c.get(b'A'), 2);
    assert_eq!(c.get(b'B'), 1);
    assert_eq!(c.get(b'C'), 0);
    assert!(c.contains_key(b'A'));
    assert!(!c.contains_key(b'C'));
    assert!(!c.is_empty());
    assert_eq!(c.total(), 3);
}

#[test]
fn counter_from_word_counts_letters() {
    let c = Counter::from_word(&word("ERROR"));
    assert_eq!(c.get(b'E'), 1);
    assert_eq!(c.get(b'R'), 3);
    assert_eq!(c.get(b'O'), 1);
    assert_eq!(c.get(b'X'), 0);
}

#[test]
fn counter_pop_one_decrements() {
    let mut c = Counter::from_word(&word("AAB"));
    assert!(c.pop_one(b'A').is_ok());
    assert_eq!(c.get(b'A'), 1);
    assert!(c.pop_one(b'A').is_ok());
    assert_eq!(c.get(b'A'), 0);
}

#[test]
fn counter_pop_one_underflows_at_zero() {
    let mut c = Counter::new();
    assert_eq!(c.pop_one(b'Q'), Err(SolverError::Underflow));
    let mut c2 = Counter::from_word(&word("B"));
    assert!(c2.pop_one(b'B').is_ok());
    assert_eq!(c2.pop_one(b'B'), Err(SolverError::Underflow));
}

#[test]
fn counter_intersect_takes_minimum() {
    let a = Counter::from_word(&word("AABBC"));
    let b = Counter::from_word(&word("ABBBD"));
    let i = a.intersect(&b);
    assert_eq!(i.get(b'A'), 1);
    assert_eq!(i.get(b'B'), 2);
    assert_eq!(i.get(b'C'), 0);
    assert_eq!(i.get(b'D'), 0);
}

#[test]
fn counter_subtract_saturates() {
    let a = Counter::from_word(&word("AAAB"));
    let b = Counter::from_word(&word("ABB"));
    let d = a.subtract(&b);
    assert_eq!(d.get(b'A'), 2);
    assert_eq!(d.get(b'B'), 0);
}

#[test]
fn counter_subtract_empty_iff_all_counts_covered() {
    // The no-surplus law on concrete values: a.subtract(b) is empty exactly
    // when every count in a is at most the matching count in b.
    let a = Counter::from_word(&word("AAB"));
    let b = Counter::from_word(&word("AABBB"));
    assert!(a.subtract(&b).is_empty());
    assert!(!b.subtract(&a).is_empty());
    let c = Counter::from_word(&word("AAC"));
    assert!(!a.subtract(&c).is_empty());
    assert!(!c.subtract(&a).is_empty());
}

#[test]
fn counter_iter_lists_positive_counts_ascending() {
    let c = Counter::from_word(&word("CABA"));
    let entries = c.iter();
    assert_eq!(entries, vec![(b'A', 2), (b'B', 1), (b'C', 1)]);
}

#[test]
fn counter_keys_lists_letters_ascending() {
    let c = Counter::from_word(&word("CABA"));
    assert_eq!(c.keys(), vec![b'A', b'B', b'C']);
}
