//! A solver core for fixed-length word-guessing games with three-valued
//! colored feedback: feedback generation under duplicate letters, candidate
//! dictionary reduction, and an entropy-guided two-stage guess selection.

use vstd::prelude::*;

pub mod counter;
pub mod dist;
pub mod error;
pub mod feedback;
pub mod heur;
pub mod reduce;
pub mod search;
pub mod select;

verus! {

/// A word is a fixed-length sequence of letters (bytes); all words handed to
/// one call share a single length.
pub type Word = Vec<u8>;

/// Number of occurrences of the letter `l` among the first `n` letters of `s`.
pub open spec fn cnt_prefix(s: Seq<u8>, l: u8, n: int) -> int
    decreases n,
{
    if n <= 0 {
        0
    } else {
        cnt_prefix(s, l, n - 1) + if s[n - 1] == l { 1int } else { 0int }
    }
}

/// Number of occurrences of the letter `l` in all of `s`.
pub open spec fn cnt(s: Seq<u8>, l: u8) -> int {
    cnt_prefix(s, l, s.len() as int)
}

/// A prefix count is non-negative and at most the prefix length.
pub proof fn lemma_cnt_prefix_bounds(s: Seq<u8>, l: u8, n: int)
    requires
        0 <= n <= s.len(),
    ensures
        0 <= cnt_prefix(s, l, n) <= n,
    decreases n,
{
    if n > 0 {
        lemma_cnt_prefix_bounds(s, l, n - 1);
    }
}

/// Prefix counts grow with the prefix.
pub proof fn lemma_cnt_prefix_mono(s: Seq<u8>, l: u8, n1: int, n2: int)
    requires
        n1 <= n2,
    ensures
        cnt_prefix(s, l, n1) <= cnt_prefix(s, l, n2),
    decreases n2 - n1,
{
    if n1 < n2 {
        lemma_cnt_prefix_mono(s, l, n1, n2 - 1);
    }
}

/// The smaller of two integers.
pub open spec fn min_int(a: int, b: int) -> int {
    if a <= b {
        a
    } else {
        b
    }
}

/// Relies on `String::from_utf8`: ASCII bytes are valid UTF-8, and the
/// resulting string holds exactly those bytes, one character per byte.
#[verifier::external_body]
fn string_from_ascii(bytes: Vec<u8>) -> (r: String)
    requires
        forall|i: int| 0 <= i < bytes@.len() ==> bytes@[i] < 128,
    ensures
        r@.len() == bytes@.len(),
        forall|i: int| 0 <= i < bytes@.len() ==> r@[i] as int == bytes@[i] as int,
{
    String::from_utf8(bytes).unwrap_or_default()
}

/// Render a word of ASCII letters as a string, character for character.
pub fn word_to_string(w: &Word) -> (r: String)
    requires
        forall|i: int| 0 <= i < w@.len() ==> w@[i] < 128,
    ensures
        r@.len() == w@.len(),
        forall|i: int| 0 <= i < w@.len() ==> r@[i] as int == w@[i] as int,
{
    let mut bytes: Vec<u8> = Vec::new();
    let n = w.len();
    for i in 0..n
        invariant
            n == w@.len(),
            forall|j: int| 0 <= j < w@.len() ==> w@[j] < 128,
            bytes@.len() == i,
            forall|j: int| 0 <= j < i ==> bytes@[j] == w@[j],
    {
        bytes.push(w[i]);
    }
    string_from_ascii(bytes)
}

} // verus!
