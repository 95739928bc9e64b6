//! Dictionary reduction: the feedback of a guess is decomposed into letter
//! constraints, and the candidate pool is filtered down to the words
//! consistent with them.

use vstd::prelude::*;

use rayon::iter::IntoParallelRefIterator;
use rayon::iter::ParallelIterator;

use crate::cnt;
use crate::cnt_prefix;
use crate::counter::Counter;
use crate::feedback::feedback_spec;
use crate::feedback::fb_at;
use crate::feedback::LettFb;
use crate::lemma_cnt_prefix_bounds;
use crate::lemma_cnt_prefix_mono;
use crate::Word;

verus! {

/// Number of positions below `n` where the feedback confirms an occurrence
/// of letter `l` (a green or yellow mark on `l` in the guess).
pub open spec fn confirmed_prefix(g: Seq<u8>, f: Seq<LettFb>, l: u8, n: int) -> int
    decreases n,
{
    if n <= 0 {
        0
    } else {
        confirmed_prefix(g, f, l, n - 1) + if g[n - 1] == l && f[n - 1] != LettFb::Grey {
            1int
        } else {
            0int
        }
    }
}

/// The confirmed count of letter `l`: a lower bound on how many of it the
/// secret holds.
pub open spec fn confirmed_cnt(g: Seq<u8>, f: Seq<LettFb>, l: u8) -> int {
    confirmed_prefix(g, f, l, g.len() as int)
}

/// Whether some position marks letter `l` grey; the confirmed count is then
/// also an upper bound on the secret's count of `l`.
pub open spec fn greyed(g: Seq<u8>, f: Seq<LettFb>, l: u8) -> bool {
    exists|i: int| 0 <= i < g.len() && g[i] == l && #[trigger] f[i] == LettFb::Grey
}

/// Whether word `w` is consistent with feedback `f` for guess `g`: every
/// green position matches; no yellow position matches (the letter is
/// elsewhere); every confirmed letter occurs at least its confirmed count;
/// and a letter greyed anywhere occurs at most its confirmed count (which
/// forbids it entirely when nothing confirmed it).
pub open spec fn survives(w: Seq<u8>, g: Seq<u8>, f: Seq<LettFb>) -> bool {
    &&& w.len() == g.len()
    &&& forall|i: int| 0 <= i < g.len() && #[trigger] f[i] == LettFb::Green ==> w[i] == g[i]
    &&& forall|i: int| 0 <= i < g.len() && #[trigger] f[i] == LettFb::Yellow ==> w[i] != g[i]
    &&& forall|l: u8| cnt(w, l) >= confirmed_cnt(g, f, l)
    &&& forall|l: u8| greyed(g, f, l) ==> cnt(w, l) <= confirmed_cnt(g, f, l)
}

/// The reduced dictionary: the subsequence of words consistent with the
/// feedback, in their original order.
pub open spec fn reduce_spec(dict: Seq<Seq<u8>>, g: Seq<u8>, f: Seq<LettFb>) -> Seq<Seq<u8>> {
    dict.filter(|w: Seq<u8>| survives(w, g, f))
}

proof fn lemma_confirmed_prefix_bounds(g: Seq<u8>, f: Seq<LettFb>, l: u8, n: int)
    requires
        0 <= n,
    ensures
        0 <= confirmed_prefix(g, f, l, n) <= n,
    decreases n,
{
    if n > 0 {
        lemma_confirmed_prefix_bounds(g, f, l, n - 1);
    }
}

/// A letter occurring at position `i` of `w` has a positive count in `w`.
proof fn lemma_cnt_at_least_one(w: Seq<u8>, i: int)
    requires
        0 <= i < w.len(),
    ensures
        cnt(w, w[i]) >= 1,
{
    lemma_cnt_prefix_bounds(w, w[i], i);
    lemma_cnt_prefix_mono(w, w[i], i + 1, w.len() as int);
}

/// Whether some position below `n` marks letter `l` grey.
pub open spec fn greyed_prefix(g: Seq<u8>, f: Seq<LettFb>, l: u8, n: int) -> bool {
    exists|i: int| 0 <= i < n && g[i] == l && #[trigger] f[i] == LettFb::Grey
}

/// The constraint set derived from one guess and its feedback: the
/// confirmed letter counts, and the set of letters with a grey mark. The
/// positional constraints are read off the stored feedback directly.
pub struct Constraints {
    guess: Word,
    fb: Vec<LettFb>,
    correct: Counter,
    grey: Vec<bool>,
}

impl Constraints {
    /// The guess these constraints were derived from.
    pub closed spec fn guess_view(self) -> Seq<u8> {
        self.guess@
    }

    /// The feedback these constraints were derived from.
    pub closed spec fn fb_view(self) -> Seq<LettFb> {
        self.fb@
    }

    /// The derived tables agree with the spec-level constraint counts.
    pub closed spec fn wf(self) -> bool {
        &&& self.guess@.len() == self.fb@.len()
        &&& self.guess@.len() <= 255
        &&& self.correct.wf()
        &&& forall|l: u8| self.correct.cnt_of(l) == confirmed_cnt(self.guess@, self.fb@, l)
        &&& self.grey@.len() == 256
        &&& forall|l: u8| self.grey@[l as int] == greyed(self.guess@, self.fb@, l)
    }

    /// Derive the constraint set of a guess/feedback pair.
    pub fn new(guess: &Word, feedback: &Vec<LettFb>) -> (c: Constraints)
        requires
            guess@.len() == feedback@.len(),
            guess@.len() <= 255,
        ensures
            c.wf(),
            c.guess_view() == guess@,
            c.fb_view() == feedback@,
    {
        let ghost g = guess@;
        let ghost f = feedback@;
        let m = guess.len();
        let mut guess_copy: Vec<u8> = Vec::new();
        let mut fb_copy: Vec<LettFb> = Vec::new();
        for i in 0..m
            invariant
                m == g.len() == f.len(),
                g == guess@,
                f == feedback@,
                guess_copy@.len() == i,
                fb_copy@.len() == i,
                forall|j: int| 0 <= j < i ==> guess_copy@[j] == g[j] && fb_copy@[j] == f[j],
        {
            guess_copy.push(guess[i]);
            fb_copy.push(feedback[i]);
        }
        let mut correct = Counter::new();
        for i in 0..m
            invariant
                m == g.len() == f.len() <= 255,
                g == guess@,
                f == feedback@,
                correct.wf(),
                forall|l: u8| correct.cnt_of(l) == confirmed_prefix(g, f, l, i as int),
        {
            let fbi = feedback[i];
            if !(fbi == LettFb::Grey) {
                proof {
                    lemma_confirmed_prefix_bounds(g, f, guess@[i as int], i as int);
                }
                correct.insert(guess[i]);
            }
            proof {
                assert forall|l: u8|
                    confirmed_prefix(g, f, l, i as int + 1) == confirmed_prefix(g, f, l, i as int)
                        + if g[i as int] == l && f[i as int] != LettFb::Grey {
                        1int
                    } else {
                        0int
                    } by {}
            }
        }
        let mut grey: Vec<bool> = vec![false; 256];
        for i in 0..m
            invariant
                m == g.len() == f.len() <= 255,
                g == guess@,
                f == feedback@,
                grey@.len() == 256,
                forall|l: u8| grey@[l as int] == greyed_prefix(g, f, l, i as int),
        {
            let ghost prev = grey@;
            let fbi = feedback[i];
            if fbi == LettFb::Grey {
                let li = guess[i] as usize;
                grey[li] = true;
            }
            proof {
                assert forall|l: u8| grey@[l as int] == greyed_prefix(g, f, l, i as int + 1) by {
                    if g[i as int] == l && f[i as int] == LettFb::Grey {
                        assert(greyed_prefix(g, f, l, i as int + 1));
                        assert(grey@[l as int]);
                    } else {
                        assert(grey@[l as int] == prev[l as int]);
                        if greyed_prefix(g, f, l, i as int + 1) {
                            let j = choose|j: int|
                                0 <= j < i as int + 1 && g[j] == l && #[trigger] f[j]
                                    == LettFb::Grey;
                            assert(j < i as int);
                            assert(greyed_prefix(g, f, l, i as int));
                        }
                    }
                }
            }
        }
        proof {
            assert(guess_copy@ =~= g);
            assert(fb_copy@ =~= f);
            assert forall|l: u8| greyed_prefix(g, f, l, m as int) == greyed(g, f, l) by {}
        }
        Constraints { guess: guess_copy, fb: fb_copy, correct, grey }
    }

    /// Whether `w` is consistent with this constraint set; decides exactly
    /// the `survives` predicate.
    pub fn word_matches(&self, w: &Word) -> (r: bool)
        requires
            self.wf(),
        ensures
            r == survives(w@, self.guess_view(), self.fb_view()),
    {
        let ghost g = self.guess@;
        let ghost f = self.fb@;
        let m = self.guess.len();
        if w.len() != m {
            return false;
        }
        // Positional constraints, read off the feedback.
        for i in 0..m
            invariant
                m == g.len() == f.len() <= 255,
                g == self.guess@,
                f == self.fb@,
                w@.len() == m,
                self.wf(),
                forall|j: int| 0 <= j < i && #[trigger] f[j] == LettFb::Green ==> w@[j] == g[j],
                forall|j: int| 0 <= j < i && #[trigger] f[j] == LettFb::Yellow ==> w@[j] != g[j],
        {
            let fbi = self.fb[i];
            if fbi == LettFb::Green && w[i] != self.guess[i] {
                return false;
            }
            if fbi == LettFb::Yellow && w[i] == self.guess[i] {
                return false;
            }
        }
        let w_ctr = Counter::from_word(w);
        // Letters greyed without any confirmed occurrence are forbidden
        // outright: a cheap early exit over the word's own letters.
        for i in 0..m
            invariant
                m == g.len() == f.len() <= 255,
                g == self.guess@,
                f == self.fb@,
                w@.len() == m,
                self.wf(),
                w_ctr.wf(),
                forall|l: u8| w_ctr.cnt_of(l) == cnt(w@, l),
        {
            let li = w[i];
            if self.grey[li as usize] && self.correct.get(li) == 0 {
                proof {
                    lemma_cnt_at_least_one(w@, i as int);
                    assert(greyed(g, f, li) && cnt(w@, li) > confirmed_cnt(g, f, li));
                }
                return false;
            }
        }
        // Every confirmed letter must occur at least its confirmed count.
        let diff = self.correct.subtract(&w_ctr);
        if !diff.is_empty() {
            proof {
                let l = choose|l: u8| diff.cnt_of(l) != 0;
                assert(cnt(w@, l) < confirmed_cnt(g, f, l));
            }
            return false;
        }
        // A letter greyed anywhere is capped at its confirmed count.
        for li in 0..256usize
            invariant
                g == self.guess@,
                f == self.fb@,
                self.wf(),
                w_ctr.wf(),
                forall|l: u8| w_ctr.cnt_of(l) == cnt(w@, l),
                forall|l: u8| (l as int) < li as int && greyed(g, f, l) ==> cnt(w@, l)
                    <= confirmed_cnt(g, f, l),
        {
            if self.grey[li] {
                if w_ctr.get(li as u8) > self.correct.get(li as u8) {
                    return false;
                }
            }
            proof {
                assert forall|l: u8| (l as int) < li as int + 1 && greyed(g, f, l) implies cnt(
                    w@,
                    l,
                ) <= confirmed_cnt(g, f, l) by {
                    if l as int == li as int {
                        assert(self.grey@[l as int]);
                    }
                }
            }
        }
        proof {
            assert forall|l: u8| cnt(w@, l) >= confirmed_cnt(g, f, l) by {
                assert(diff.cnt_of(l) == 0);
            }
        }
        true
    }
}

/// Relies on rayon's `par_iter().filter(..).cloned().collect::<Vec<_>>()`
/// over a `Vec`: the collected vector holds exactly the elements on which
/// the filter closure returned true, in their original order. The closure
/// only calls the verified `word_matches`, whose result is `survives`.
#[verifier::external_body]
fn par_filter_surviving(dict: &Vec<Word>, c: &Constraints) -> (r: Vec<Word>)
    requires
        c.wf(),
    ensures
        r.deep_view() == dict.deep_view().filter(
            |w: Seq<u8>| survives(w, c.guess_view(), c.fb_view()),
        ),
{
    dict.par_iter().filter(|w| c.word_matches(w)).cloned().collect()
}

/// Reduce a candidate dictionary by one guess/feedback pair: the result
/// holds exactly the words consistent with the feedback, in their original
/// order, and never grows.
pub fn reduce_dict(dict: &Vec<Word>, guess: &Word, feedback: &Vec<LettFb>) -> (r: Vec<Word>)
    requires
        guess@.len() == feedback@.len(),
        guess@.len() <= 255,
    ensures
        r.deep_view() == reduce_spec(dict.deep_view(), guess@, feedback@),
        r@.len() <= dict@.len(),
{
    let c = Constraints::new(guess, feedback);
    let r = par_filter_surviving(dict, &c);
    proof {
        dict.deep_view().lemma_filter_len(|w: Seq<u8>| survives(w, guess@, feedback@));
        assert(r.deep_view().len() == r@.len());
        assert(dict.deep_view().len() == dict@.len());
    }
    r
}

/// Reduce the pool and report an empty result as the `EmptyPool` error:
/// the signal that the secret lies outside the assumed dictionary and that
/// the guess history should be replayed against the extended one.
pub fn reduce_dict_checked(dict: &Vec<Word>, guess: &Word, feedback: &Vec<LettFb>) -> (r: Result<
    Vec<Word>,
    crate::error::SolverError,
>)
    requires
        guess@.len() == feedback@.len(),
        guess@.len() <= 255,
    ensures
        match r {
            Ok(p) => {
                &&& p.deep_view() == reduce_spec(dict.deep_view(), guess@, feedback@)
                &&& p@.len() > 0
            },
            Err(e) => {
                &&& e == crate::error::SolverError::EmptyPool
                &&& reduce_spec(dict.deep_view(), guess@, feedback@).len() == 0
            },
        },
{
    let p = reduce_dict(dict, guess, feedback);
    if p.len() == 0 {
        Err(crate::error::SolverError::EmptyPool)
    } else {
        Ok(p)
    }
}

/// The pool that results from replaying the first `n` guess/feedback pairs
/// of a history against a dictionary, oldest first.
pub open spec fn replay_spec(
    dict: Seq<Seq<u8>>,
    hist: Seq<(Word, Vec<LettFb>)>,
    n: int,
) -> Seq<Seq<u8>>
    decreases n,
{
    if n <= 0 {
        dict
    } else {
        reduce_spec(replay_spec(dict, hist, n - 1), hist[n - 1].0@, hist[n - 1].1@)
    }
}

/// Replay a whole guess history against a dictionary: the recovery path
/// when the candidate pool runs empty. Reduces by each recorded pair in
/// order and never fails, whatever state the pool reaches.
pub fn replay_history(dict: &Vec<Word>, hist: &Vec<(Word, Vec<LettFb>)>) -> (r: Vec<Word>)
    requires
        forall|k: int|
            0 <= k < hist@.len() ==> (#[trigger] hist@[k]).0@.len() == hist@[k].1@.len()
                && hist@[k].0@.len() <= 255,
    ensures
        r.deep_view() == replay_spec(dict.deep_view(), hist@, hist@.len() as int),
{
    let ghost dd = dict.deep_view();
    let mut cur: Vec<Word> = Vec::new();
    let nd = dict.len();
    for i in 0..nd
        invariant
            nd == dict@.len(),
            cur@.len() == i,
            forall|j: int| 0 <= j < i ==> (#[trigger] cur@[j])@ == dict@[j]@,
    {
        let w = crate::search::clone_word(&dict[i]);
        cur.push(w);
    }
    proof {
        assert(cur.deep_view() =~= dd);
    }
    let nh = hist.len();
    for k in 0..nh
        invariant
            nh == hist@.len(),
            dd == dict.deep_view(),
            forall|k2: int|
                0 <= k2 < hist@.len() ==> (#[trigger] hist@[k2]).0@.len() == hist@[k2].1@.len()
                    && hist@[k2].0@.len() <= 255,
            cur.deep_view() == replay_spec(dd, hist@, k as int),
    {
        let g = &hist[k].0;
        let f = &hist[k].1;
        cur = reduce_dict(&cur, g, f);
    }
    cur
}

proof fn lemma_filter_idempotent<A>(s: Seq<A>, p: spec_fn(A) -> bool)
    ensures
        s.filter(p).filter(p) == s.filter(p),
    decreases s.len(),
{
    reveal(Seq::filter);
    if s.len() > 0 {
        let t = s.drop_last();
        lemma_filter_idempotent(t, p);
        if p(s.last()) {
            t.filter(p).lemma_filter_push(s.last(), p);
        }
    }
}

/// Reducing a pool that was already reduced by the same guess and feedback
/// changes nothing: the filter is idempotent.
pub proof fn lemma_reduce_idempotent(dict: Seq<Seq<u8>>, g: Seq<u8>, f: Seq<LettFb>)
    ensures
        reduce_spec(reduce_spec(dict, g, f), g, f) == reduce_spec(dict, g, f),
{
    lemma_filter_idempotent(dict, |w: Seq<u8>| survives(w, g, f));
}

proof fn lemma_confirmed_self_is_cnt(g: Seq<u8>, l: u8, n: int)
    requires
        0 <= n <= g.len(),
    ensures
        confirmed_prefix(g, feedback_spec(g, g), l, n) == cnt_prefix(g, l, n),
    decreases n,
{
    if n > 0 {
        lemma_confirmed_self_is_cnt(g, l, n - 1);
        assert(fb_at(g, g, n - 1) == LettFb::Green);
    }
}

/// A guess always survives the feedback generated against itself, so
/// reducing a pool that contains the guess by that feedback retains it.
pub proof fn lemma_reduce_retains_guess(dict: Seq<Seq<u8>>, g: Seq<u8>)
    requires
        dict.contains(g),
    ensures
        survives(g, g, feedback_spec(g, g)),
        reduce_spec(dict, g, feedback_spec(g, g)).contains(g),
{
    let f = feedback_spec(g, g);
    assert forall|i: int| 0 <= i < g.len() implies #[trigger] f[i] == LettFb::Green by {
        assert(fb_at(g, g, i) == LettFb::Green);
    }
    assert forall|l: u8| cnt(g, l) >= confirmed_cnt(g, f, l) by {
        lemma_confirmed_self_is_cnt(g, l, g.len() as int);
    }
    assert forall|l: u8| greyed(g, f, l) implies cnt(g, l) <= confirmed_cnt(g, f, l) by {
        let i = choose|i: int| 0 <= i < g.len() && g[i] == l && #[trigger] f[i] == LettFb::Grey;
        assert(f[i] == LettFb::Green);
    }
    assert(survives(g, g, f));
    let k = choose|k: int| 0 <= k < dict.len() && dict[k] == g;
    dict.lemma_filter_contains(|w: Seq<u8>| survives(w, g, f), k);
}

} // verus!
