//! Feedback generation: the per-position three-valued result of comparing a
//! guess against a secret, with duplicate letters resolved through multiset
//! intersection and earliest-position tie-breaking.

use vstd::prelude::*;
use vstd::string::StringSliceAdditionalSpecFns;

use crate::cnt;
use crate::cnt_prefix;
use crate::counter::Counter;
use crate::error::SolverError;
use crate::lemma_cnt_prefix_mono;
use crate::min_int;
use crate::Word;

verus! {

/// Feedback on one letter of a guess.
#[derive(Clone, Copy, Debug, PartialEq, Eq, Structural)]
pub enum LettFb {
    /// The letter is not in the secret (beyond occurrences already
    /// accounted for by other positions).
    Grey,
    /// The letter occurs in the secret, but not at this position.
    Yellow,
    /// The letter is correct and in the correct position.
    Green,
}

/// Number of positions below `n` where secret and guess agree on letter `l`
/// (the green positions for `l`).
pub open spec fn green_prefix(s: Seq<u8>, g: Seq<u8>, l: u8, n: int) -> int
    decreases n,
{
    if n <= 0 {
        0
    } else {
        green_prefix(s, g, l, n - 1) + if s[n - 1] == g[n - 1] && g[n - 1] == l {
            1int
        } else {
            0int
        }
    }
}

/// Number of positions below `n` where the guess shows letter `l` but the
/// secret disagrees there (the non-green positions for `l`).
pub open spec fn nongreen_prefix(s: Seq<u8>, g: Seq<u8>, l: u8, n: int) -> int
    decreases n,
{
    if n <= 0 {
        0
    } else {
        nongreen_prefix(s, g, l, n - 1) + if g[n - 1] == l && s[n - 1] != g[n - 1] {
            1int
        } else {
            0int
        }
    }
}

/// How many non-green occurrences of `l` in the guess can still be marked
/// present-elsewhere: the shared count of `l` between secret and guess,
/// minus the green positions that already consumed a shared occurrence.
pub open spec fn avail(s: Seq<u8>, g: Seq<u8>, l: u8) -> int {
    min_int(cnt(s, l), cnt(g, l)) - green_prefix(s, g, l, s.len() as int)
}

/// The feedback at position `i`: green where the letters agree; otherwise
/// yellow exactly when the earlier non-green occurrences of the letter have
/// not yet exhausted the shared count (so the earliest positions win ties);
/// grey otherwise.
pub open spec fn fb_at(s: Seq<u8>, g: Seq<u8>, i: int) -> LettFb {
    if s[i] == g[i] {
        LettFb::Green
    } else if nongreen_prefix(s, g, g[i], i) < avail(s, g, g[i]) {
        LettFb::Yellow
    } else {
        LettFb::Grey
    }
}

/// The whole feedback word for a guess against a secret of the same length.
pub open spec fn feedback_spec(s: Seq<u8>, g: Seq<u8>) -> Seq<LettFb> {
    Seq::new(g.len(), |i: int| fb_at(s, g, i))
}

/// Green positions for `l` are occurrences of `l` in both words, so their
/// count stays below both letter counts.
pub proof fn lemma_green_le_cnts(s: Seq<u8>, g: Seq<u8>, l: u8, n: int)
    requires
        s.len() == g.len(),
        0 <= n <= s.len(),
    ensures
        0 <= green_prefix(s, g, l, n),
        green_prefix(s, g, l, n) <= cnt_prefix(s, l, n),
        green_prefix(s, g, l, n) <= cnt_prefix(g, l, n),
    decreases n,
{
    if n > 0 {
        lemma_green_le_cnts(s, g, l, n - 1);
    }
}

/// The remaining shared count can never go negative.
pub proof fn lemma_avail_nonneg(s: Seq<u8>, g: Seq<u8>, l: u8)
    requires
        s.len() == g.len(),
    ensures
        avail(s, g, l) >= 0,
{
    lemma_green_le_cnts(s, g, l, s.len() as int);
}

/// Decode one feedback symbol: `-` is grey, `+` is yellow, `*` is green.
pub open spec fn decode_byte(b: u8) -> Option<LettFb> {
    if b == 45 {
        Some(LettFb::Grey)
    } else if b == 43 {
        Some(LettFb::Yellow)
    } else if b == 42 {
        Some(LettFb::Green)
    } else {
        None
    }
}

/// Parse a feedback string of expected length `m`. Succeeds exactly when
/// the string has `m` bytes and each is one of the three symbols; the
/// result decodes the string position by position.
pub fn read_feedback(s: &str, m: usize) -> (r: Result<Vec<LettFb>, SolverError>)
    ensures
        match r {
            Ok(fb) => {
                &&& s.spec_bytes().len() == m
                &&& fb@.len() == m
                &&& forall|i: int|
                    0 <= i < m ==> decode_byte(s.spec_bytes()[i]) == Some(fb@[i])
            },
            Err(e) => {
                &&& e == SolverError::Decode
                &&& (s.spec_bytes().len() != m || exists|i: int|
                    0 <= i < m && decode_byte(#[trigger] s.spec_bytes()[i]) is None)
            },
        },
{
    let bytes = s.as_bytes();
    if bytes.len() != m {
        return Err(SolverError::Decode);
    }
    let mut fb: Vec<LettFb> = Vec::new();
    for i in 0..m
        invariant
            bytes@ == s.spec_bytes(),
            bytes@.len() == m,
            fb@.len() == i,
            forall|j: int| 0 <= j < i ==> decode_byte(s.spec_bytes()[j]) == Some(fb@[j]),
    {
        let b = bytes[i];
        if b == 45 {
            fb.push(LettFb::Grey);
        } else if b == 43 {
            fb.push(LettFb::Yellow);
        } else if b == 42 {
            fb.push(LettFb::Green);
        } else {
            proof {
                assert(decode_byte(s.spec_bytes()[i as int]) is None);
            }
            return Err(SolverError::Decode);
        }
    }
    Ok(fb)
}

/// Generate the feedback for `guess` against `secret`: first mark every
/// exact match green, consuming one shared occurrence of its letter, then
/// walk the remaining positions in ascending order and mark a position
/// yellow while its letter still has shared occurrences left.
pub fn get_feedback(secret: &Word, guess: &Word) -> (fb: Vec<LettFb>)
    requires
        secret@.len() == guess@.len(),
        guess@.len() <= 255,
    ensures
        fb@ == feedback_spec(secret@, guess@),
{
    let ghost s = secret@;
    let ghost g = guess@;
    let m = guess.len();
    let secret_ctr = Counter::from_word(secret);
    let guess_ctr = Counter::from_word(guess);
    let mut common = secret_ctr.intersect(&guess_ctr);
    let mut fb: Vec<LettFb> = Vec::new();
    for i in 0..m
        invariant
            fb@.len() == i,
            forall|j: int| 0 <= j < i ==> fb@[j] == LettFb::Grey,
    {
        fb.push(LettFb::Grey);
    }
    // First pass: exact matches.
    for i in 0..m
        invariant
            s.len() == m,
            g.len() == m,
            m <= 255,
            s == secret@,
            g == guess@,
            fb@.len() == m,
            common.wf(),
            forall|l: u8| common.cnt_of(l) == min_int(cnt(s, l), cnt(g, l)) - green_prefix(
                s,
                g,
                l,
                i as int,
            ),
            forall|j: int| 0 <= j < i ==> fb@[j] == (if s[j] == g[j] {
                LettFb::Green
            } else {
                LettFb::Grey
            }),
            forall|j: int| i <= j < m ==> fb@[j] == LettFb::Grey,
    {
        if secret[i] == guess[i] {
            let l = guess[i];
            proof {
                lemma_green_le_cnts(s, g, l, i as int + 1);
                lemma_cnt_prefix_mono(s, l, i as int + 1, m as int);
                lemma_cnt_prefix_mono(g, l, i as int + 1, m as int);
                assert(green_prefix(s, g, l, i as int + 1) == green_prefix(s, g, l, i as int) + 1);
                assert(common.cnt_of(l) > 0);
            }
            fb[i] = LettFb::Green;
            let _ = common.pop_one(l);
            proof {
                assert forall|l2: u8|
                    common.cnt_of(l2) == min_int(cnt(s, l2), cnt(g, l2)) - green_prefix(
                        s,
                        g,
                        l2,
                        i as int + 1,
                    ) by {
                    assert(green_prefix(s, g, l2, i as int + 1) == green_prefix(s, g, l2, i as int)
                        + if s[i as int] == g[i as int] && g[i as int] == l2 {
                        1int
                    } else {
                        0int
                    });
                }
            }
        } else {
            proof {
                assert forall|l2: u8|
                    green_prefix(s, g, l2, i as int + 1) == green_prefix(s, g, l2, i as int) by {}
            }
        }
    }
    proof {
        assert forall|l: u8|
            common.cnt_of(l) == avail(s, g, l) - min_int(
                nongreen_prefix(s, g, l, 0),
                avail(s, g, l),
            ) by {
            lemma_avail_nonneg(s, g, l);
        }
    }
    // Second pass: present-elsewhere marks, earliest position first.
    for i in 0..m
        invariant
            s.len() == m,
            g.len() == m,
            m <= 255,
            s == secret@,
            g == guess@,
            fb@.len() == m,
            common.wf(),
            forall|l: u8| common.cnt_of(l) == avail(s, g, l) - min_int(
                nongreen_prefix(s, g, l, i as int),
                avail(s, g, l),
            ),
            forall|j: int| 0 <= j < i ==> fb@[j] == fb_at(s, g, j),
            forall|j: int| i <= j < m ==> fb@[j] == (if s[j] == g[j] {
                LettFb::Green
            } else {
                LettFb::Grey
            }),
    {
        let l = guess[i];
        proof {
            lemma_avail_nonneg(s, g, l);
        }
        if secret[i] != guess[i] {
            let remaining = common.get(l);
            if remaining > 0 {
                fb[i] = LettFb::Yellow;
                let _ = common.pop_one(l);
                proof {
                    assert(nongreen_prefix(s, g, l, i as int) < avail(s, g, l));
                    assert(fb_at(s, g, i as int) == LettFb::Yellow);
                    assert forall|l2: u8|
                        common.cnt_of(l2) == avail(s, g, l2) - min_int(
                            nongreen_prefix(s, g, l2, i as int + 1),
                            avail(s, g, l2),
                        ) by {
                        assert(nongreen_prefix(s, g, l2, i as int + 1) == nongreen_prefix(
                            s,
                            g,
                            l2,
                            i as int,
                        ) + if g[i as int] == l2 && s[i as int] != g[i as int] {
                            1int
                        } else {
                            0int
                        });
                    }
                }
            } else {
                proof {
                    assert(min_int(nongreen_prefix(s, g, l, i as int), avail(s, g, l)) == avail(
                        s,
                        g,
                        l,
                    ));
                    assert(nongreen_prefix(s, g, l, i as int) >= avail(s, g, l));
                    assert(fb_at(s, g, i as int) == LettFb::Grey);
                    assert forall|l2: u8|
                        common.cnt_of(l2) == avail(s, g, l2) - min_int(
                            nongreen_prefix(s, g, l2, i as int + 1),
                            avail(s, g, l2),
                        ) by {
                        assert(nongreen_prefix(s, g, l2, i as int + 1) == nongreen_prefix(
                            s,
                            g,
                            l2,
                            i as int,
                        ) + if g[i as int] == l2 && s[i as int] != g[i as int] {
                            1int
                        } else {
                            0int
                        });
                    }
                }
            }
        } else {
            proof {
                assert(fb_at(s, g, i as int) == LettFb::Green);
                assert forall|l2: u8|
                    nongreen_prefix(s, g, l2, i as int + 1) == nongreen_prefix(
                        s,
                        g,
                        l2,
                        i as int,
                    ) by {}
            }
        }
    }
    proof {
        assert(fb@ =~= feedback_spec(s, g));
    }
    fb
}

/// Feedback of a word against itself is green at every position.
pub proof fn lemma_self_feedback_all_green(w: Seq<u8>)
    ensures
        feedback_spec(w, w).len() == w.len(),
        forall|i: int| 0 <= i < w.len() ==> feedback_spec(w, w)[i] == LettFb::Green,
{
}

/// Number of positions below `n` whose feedback marks letter `l` as green
/// or yellow (confirmed occurrences of `l`).
pub open spec fn marked_prefix(s: Seq<u8>, g: Seq<u8>, l: u8, n: int) -> int
    decreases n,
{
    if n <= 0 {
        0
    } else {
        marked_prefix(s, g, l, n - 1) + if g[n - 1] == l && fb_at(s, g, n - 1) != LettFb::Grey {
            1int
        } else {
            0int
        }
    }
}

/// Number of positions below `n` marked yellow for letter `l`.
pub open spec fn yellow_prefix(s: Seq<u8>, g: Seq<u8>, l: u8, n: int) -> int
    decreases n,
{
    if n <= 0 {
        0
    } else {
        yellow_prefix(s, g, l, n - 1) + if g[n - 1] == l && fb_at(s, g, n - 1) == LettFb::Yellow {
            1int
        } else {
            0int
        }
    }
}

proof fn lemma_yellow_prefix_is_min(s: Seq<u8>, g: Seq<u8>, l: u8, n: int)
    requires
        s.len() == g.len(),
        0 <= n <= s.len(),
    ensures
        yellow_prefix(s, g, l, n) == min_int(nongreen_prefix(s, g, l, n), avail(s, g, l)),
    decreases n,
{
    lemma_avail_nonneg(s, g, l);
    if n > 0 {
        lemma_yellow_prefix_is_min(s, g, l, n - 1);
    }
}

proof fn lemma_marked_is_green_plus_yellow(s: Seq<u8>, g: Seq<u8>, l: u8, n: int)
    requires
        s.len() == g.len(),
        0 <= n <= s.len(),
    ensures
        marked_prefix(s, g, l, n) == green_prefix(s, g, l, n) + yellow_prefix(s, g, l, n),
    decreases n,
{
    if n > 0 {
        lemma_marked_is_green_plus_yellow(s, g, l, n - 1);
    }
}

/// For every letter, the number of green-or-yellow marks the feedback gives
/// it never exceeds the smaller of its counts in the secret and the guess.
pub proof fn lemma_marked_le_min(s: Seq<u8>, g: Seq<u8>, l: u8)
    requires
        s.len() == g.len(),
    ensures
        marked_prefix(s, g, l, g.len() as int) <= min_int(cnt(s, l), cnt(g, l)),
{
    let n = g.len() as int;
    lemma_marked_is_green_plus_yellow(s, g, l, n);
    lemma_yellow_prefix_is_min(s, g, l, n);
    lemma_avail_nonneg(s, g, l);
}

} // verus!
