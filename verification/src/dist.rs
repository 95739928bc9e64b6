//! Letter distribution models: two statistical summaries of a reference
//! dictionary used to rank candidate guesses cheaply before the exact
//! expectation search. The model holds exact occurrence counts; turning a
//! count into a probability (a division by the dictionary size) and the
//! entropy arithmetic on it belong to the unverified shell around the core.

use vstd::prelude::*;

use crate::cnt;
use crate::counter::Counter;
use crate::lemma_cnt_prefix_bounds;
use crate::Word;

verus! {

/// Number of words among the first `n` of `dict` that hold exactly `c`
/// occurrences of letter `l`.
pub open spec fn words_with_count_prefix(dict: Seq<Seq<u8>>, l: u8, c: int, n: int) -> int
    decreases n,
{
    if n <= 0 {
        0
    } else {
        words_with_count_prefix(dict, l, c, n - 1) + if cnt(dict[n - 1], l) == c {
            1int
        } else {
            0int
        }
    }
}

/// Number of words among the first `n` of `dict` whose letter at position
/// `p` is `l`.
pub open spec fn words_with_letter_at_prefix(dict: Seq<Seq<u8>>, p: int, l: u8, n: int) -> int
    decreases n,
{
    if n <= 0 {
        0
    } else {
        words_with_letter_at_prefix(dict, p, l, n - 1) + if dict[n - 1][p] == l {
            1int
        } else {
            0int
        }
    }
}

/// Sum of the bucket sizes for counts 0 through `c` of letter `l`, over
/// the first `n` words.
pub open spec fn bucket_sum(dict: Seq<Seq<u8>>, l: u8, c: int, n: int) -> int
    decreases c + 1,
{
    if c < 0 {
        0
    } else {
        bucket_sum(dict, l, c - 1, n) + words_with_count_prefix(dict, l, c, n)
    }
}

proof fn lemma_bucket_sum_zero(dict: Seq<Seq<u8>>, l: u8, c: int)
    ensures
        bucket_sum(dict, l, c, 0) == 0,
    decreases c + 1,
{
    if c >= 0 {
        lemma_bucket_sum_zero(dict, l, c - 1);
    }
}

proof fn lemma_bucket_sum_step(dict: Seq<Seq<u8>>, l: u8, c: int, n: int)
    requires
        0 < n <= dict.len(),
    ensures
        bucket_sum(dict, l, c, n) == bucket_sum(dict, l, c, n - 1) + if 0 <= cnt(dict[n - 1], l)
            <= c {
            1int
        } else {
            0int
        },
    decreases c + 1,
{
    if c >= 0 {
        lemma_bucket_sum_step(dict, l, c - 1, n);
    }
}

/// The buckets of one letter partition the dictionary: over counts 0 up to
/// the word length, the bucket sizes sum to the dictionary size. The
/// explicit zero bucket therefore equals the dictionary size minus the
/// observed non-zero buckets.
pub proof fn lemma_buckets_partition_dict(dict: Seq<Seq<u8>>, l: u8, word_len: int, n: int)
    requires
        0 <= n <= dict.len(),
        0 <= word_len,
        forall|k: int| 0 <= k < dict.len() ==> (#[trigger] dict[k]).len() == word_len,
    ensures
        bucket_sum(dict, l, word_len, n) == n,
    decreases n,
{
    if n == 0 {
        lemma_bucket_sum_zero(dict, l, word_len);
    } else {
        lemma_buckets_partition_dict(dict, l, word_len, n - 1);
        crate::lemma_cnt_prefix_bounds(dict[n - 1], l, dict[n - 1].len() as int);
        lemma_bucket_sum_step(dict, l, word_len, n);
    }
}

/// The per-letter occurrence-count distribution of a dictionary: for every
/// letter and every possible occurrence count (0 up to the word length),
/// how many dictionary words hold the letter exactly that often. The
/// zero-occurrence bucket is counted explicitly; `bucket_sum` shows it
/// equal to the dictionary size minus all non-zero buckets.
pub struct LettCountDist {
    freq: Vec<Vec<usize>>,
    dict_size: usize,
    word_len: usize,
}

impl LettCountDist {
    /// The table covers every letter, with one bucket per possible count.
    pub closed spec fn wf(self) -> bool {
        &&& self.freq@.len() == 256
        &&& forall|l: int| 0 <= l < 256 ==> (#[trigger] self.freq@[l])@.len() == self.word_len
            + 1
    }

    /// Number of dictionary words with exactly `c` occurrences of `l`.
    pub closed spec fn freq_at(self, l: u8, c: int) -> int {
        self.freq@[l as int]@[c] as int
    }

    /// The size of the dictionary the model was built from.
    pub closed spec fn dict_size_spec(self) -> int {
        self.dict_size as int
    }

    /// The common length of the dictionary's words.
    pub closed spec fn word_len_spec(self) -> int {
        self.word_len as int
    }

    /// Build the count distribution of a dictionary whose words all have
    /// length `word_len`.
    pub fn new(dict: &Vec<Word>, word_len: usize) -> (r: LettCountDist)
        requires
            word_len <= 255,
            forall|k: int| 0 <= k < dict@.len() ==> (#[trigger] dict@[k])@.len() == word_len,
        ensures
            r.wf(),
            r.dict_size_spec() == dict@.len(),
            r.word_len_spec() == word_len,
            forall|l: u8, c: int|
                0 <= c <= word_len ==> r.freq_at(l, c) == words_with_count_prefix(
                    dict.deep_view(),
                    l,
                    c,
                    dict@.len() as int,
                ),
    {
        let ghost dd = dict.deep_view();
        let n = dict.len();
        let mut freq: Vec<Vec<usize>> = Vec::new();
        for li in 0..256usize
            invariant
                dd == dict.deep_view(),
                n == dict@.len(),
                word_len <= 255,
                forall|k: int| 0 <= k < dict@.len() ==> (#[trigger] dict@[k])@.len() == word_len,
                freq@.len() == li,
                forall|l: int| 0 <= l < li as int ==> (#[trigger] freq@[l])@.len() == word_len + 1,
                forall|l: int, c: int|
                    0 <= l < li as int && 0 <= c <= word_len ==> #[trigger] (freq@[l])@[c] as int
                        == words_with_count_prefix(dd, l as u8, c, n as int),
        {
            let mut row: Vec<usize> = vec![0usize; word_len + 1];
            let ghost l = li as u8;
            for k in 0..n
                invariant
                    dd == dict.deep_view(),
                    n == dict@.len(),
                    word_len <= 255,
                    forall|k2: int| 0 <= k2 < dict@.len() ==> (#[trigger] dict@[k2])@.len()
                        == word_len,
                    l == li as u8,
                    li < 256,
                    row@.len() == word_len + 1,
                    forall|c: int|
                        0 <= c <= word_len ==> (#[trigger] row@[c]) as int
                            == words_with_count_prefix(dd, l, c, k as int),
                    forall|c: int| 0 <= c <= word_len ==> (#[trigger] row@[c]) as int <= k as int,
            {
                let w = &dict[k];
                let w_ctr = Counter::from_word(w);
                let c0 = w_ctr.get(li as u8) as usize;
                proof {
                    assert(dd[k as int] == dict@[k as int]@);
                    lemma_cnt_prefix_bounds(dd[k as int], l, dd[k as int].len() as int);
                    assert(c0 <= word_len);
                }
                let v = row[c0];
                row[c0] = v + 1;
                proof {
                    assert forall|c: int|
                        0 <= c <= word_len implies (#[trigger] row@[c]) as int
                        == words_with_count_prefix(dd, l, c, k as int + 1) by {
                        assert(words_with_count_prefix(dd, l, c, k as int + 1)
                            == words_with_count_prefix(dd, l, c, k as int) + if cnt(
                            dd[k as int],
                            l,
                        ) == c {
                            1int
                        } else {
                            0int
                        });
                    }
                }
            }
            freq.push(row);
        }
        LettCountDist { freq, dict_size: n, word_len }
    }

    /// Number of dictionary words holding letter `l` exactly `c` times.
    pub fn freq(&self, l: u8, c: usize) -> (r: usize)
        requires
            self.wf(),
            c <= self.word_len_spec(),
        ensures
            r as int == self.freq_at(l, c as int),
    {
        self.freq[l as usize][c]
    }

    /// The size of the dictionary the model was built from.
    pub fn dict_size(&self) -> (r: usize)
        ensures
            r as int == self.dict_size_spec(),
    {
        self.dict_size
    }

    /// The common word length of the model.
    pub fn word_len(&self) -> (r: usize)
        ensures
            r as int == self.word_len_spec(),
    {
        self.word_len
    }
}

/// The per-position letter distribution of a dictionary: for every
/// position and letter, how many dictionary words show that letter there.
pub struct LettLocDist {
    counts: Vec<Vec<usize>>,
    dict_size: usize,
    word_len: usize,
}

impl LettLocDist {
    /// One row per position, one bucket per letter.
    pub closed spec fn wf(self) -> bool {
        &&& self.counts@.len() == self.word_len
        &&& forall|p: int| 0 <= p < self.word_len ==> (#[trigger] self.counts@[p])@.len() == 256
    }

    /// Number of dictionary words whose letter at position `p` is `l`.
    pub closed spec fn count_at_spec(self, p: int, l: u8) -> int {
        self.counts@[p]@[l as int] as int
    }

    /// The size of the dictionary the model was built from.
    pub closed spec fn dict_size_spec(self) -> int {
        self.dict_size as int
    }

    /// The common length of the dictionary's words.
    pub closed spec fn word_len_spec(self) -> int {
        self.word_len as int
    }

    /// Build the location distribution of a dictionary whose words all
    /// have length `word_len`.
    pub fn new(dict: &Vec<Word>, word_len: usize) -> (r: LettLocDist)
        requires
            word_len <= 255,
            forall|k: int| 0 <= k < dict@.len() ==> (#[trigger] dict@[k])@.len() == word_len,
        ensures
            r.wf(),
            r.dict_size_spec() == dict@.len(),
            r.word_len_spec() == word_len,
            forall|p: int, l: u8|
                0 <= p < word_len ==> r.count_at_spec(p, l) == words_with_letter_at_prefix(
                    dict.deep_view(),
                    p,
                    l,
                    dict@.len() as int,
                ),
    {
        let ghost dd = dict.deep_view();
        let n = dict.len();
        let mut counts: Vec<Vec<usize>> = Vec::new();
        for p in 0..word_len
            invariant
                dd == dict.deep_view(),
                n == dict@.len(),
                word_len <= 255,
                forall|k: int| 0 <= k < dict@.len() ==> (#[trigger] dict@[k])@.len() == word_len,
                counts@.len() == p,
                forall|p2: int| 0 <= p2 < p as int ==> (#[trigger] counts@[p2])@.len() == 256,
                forall|p2: int, l: u8|
                    0 <= p2 < p as int ==> #[trigger] (counts@[p2])@[l as int] as int
                        == words_with_letter_at_prefix(dd, p2, l, n as int),
        {
            let mut row: Vec<usize> = vec![0usize; 256];
            for k in 0..n
                invariant
                    dd == dict.deep_view(),
                    n == dict@.len(),
                    p < word_len <= 255,
                    forall|k2: int| 0 <= k2 < dict@.len() ==> (#[trigger] dict@[k2])@.len()
                        == word_len,
                    row@.len() == 256,
                    forall|l: u8| (#[trigger] row@[l as int]) as int == words_with_letter_at_prefix(
                        dd,
                        p as int,
                        l,
                        k as int,
                    ),
                    forall|l: u8| (#[trigger] row@[l as int]) as int <= k as int,
            {
                let w = &dict[k];
                let li = w[p] as usize;
                proof {
                    assert(dd[k as int] == dict@[k as int]@);
                }
                let v = row[li];
                row[li] = v + 1;
                proof {
                    assert forall|l: u8|
                        (#[trigger] row@[l as int]) as int == words_with_letter_at_prefix(
                            dd,
                            p as int,
                            l,
                            k as int + 1,
                        ) by {
                        assert(words_with_letter_at_prefix(dd, p as int, l, k as int + 1)
                            == words_with_letter_at_prefix(dd, p as int, l, k as int) + if dd[
                            k as int
                        ][p as int] == l {
                            1int
                        } else {
                            0int
                        });
                    }
                }
            }
            counts.push(row);
        }
        LettLocDist { counts, dict_size: n, word_len }
    }

    /// Number of dictionary words showing letter `l` at position `p`.
    pub fn count_at(&self, p: usize, l: u8) -> (r: usize)
        requires
            self.wf(),
            p < self.word_len_spec(),
        ensures
            r as int == self.count_at_spec(p as int, l),
    {
        self.counts[p][l as usize]
    }

    /// The size of the dictionary the model was built from.
    pub fn dict_size(&self) -> (r: usize)
        ensures
            r as int == self.dict_size_spec(),
    {
        self.dict_size
    }

    /// The common word length of the model.
    pub fn word_len(&self) -> (r: usize)
        ensures
            r as int == self.word_len_spec(),
    {
        self.word_len
    }
}

} // verus!
