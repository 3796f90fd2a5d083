//! Guess scoring, windowed top-three search, and constraint filtering.
//!
//! Scores are exact scaled integers: for a model whose five slot totals all
//! equal `n` (every model built from a corpus is of this shape), the scaled
//! score of a word is `5 * n` times the frequency heuristic
//! `sum over slots of positional_frequency * (15 or 6) + aggregate_frequency
//! * (12 or 4)`, where the reduced weights apply to a letter already seen
//! earlier in the same word.  Scaling by the shared positive factor keeps
//! every comparison between guesses exact.

use crate::freq::{
    dist_count, dist_wf, empty_dist, inc_dist, is_letter, lemma_sum_counts_all_zero,
    lemma_sum_counts_update, lemma_sum_counts_zero_implies_each_zero, letter_index, model_count,
    model_wf, sum_counts, word_wf, FrequencyDistribution, FrequencySet,
};
use vstd::multiset::Multiset;
use vstd::pervasive::unreached;
use vstd::prelude::*;
use vstd::string::StrSliceExecFns;

verus! {

/// Feedback accumulated about the hidden answer after a played guess:
/// letters known to be absent, letters present somewhere, letters present
/// but not at a given slot, and letters known exactly at a slot.
#[derive(Clone)]
pub struct CurrentInfo {
    pub excluded: Vec<char>,
    pub somewhere: Vec<char>,
    pub exists_at: [Option<char>; 5],
    pub known: [Option<char>; 5],
}

impl CurrentInfo {
    pub fn new() -> (info: Self)
        ensures
            info.excluded@ == Seq::<char>::empty(),
            info.somewhere@ == Seq::<char>::empty(),
            info.exists_at@.len() == 5,
            info.known@.len() == 5,
            forall|i: int| 0 <= i < 5 ==> (#[trigger] info.exists_at@[i]) is None,
            forall|i: int| 0 <= i < 5 ==> (#[trigger] info.known@[i]) is None,
    {
        Self {
            excluded: Vec::new(),
            somewhere: Vec::new(),
            exists_at: [None, None, None, None, None],
            known: [None, None, None, None, None],
        }
    }
}

/// A candidate word survives a feedback record when it has no excluded
/// letter, has every `somewhere` letter, avoids each `exists_at` letter at
/// that slot, and matches each `known` letter at its slot.
pub open spec fn keeps(info: CurrentInfo, w: Seq<char>) -> bool {
    &&& forall|k: int|
        0 <= k < info.excluded@.len() ==> !w.contains(#[trigger] info.excluded@[k])
    &&& forall|k: int| 0 <= k < info.somewhere@.len() ==> w.contains(#[trigger] info.somewhere@[k])
    &&& forall|i: int| 0 <= i < 5 ==> (#[trigger] info.exists_at@[i]) != Some(w[i])
    &&& forall|i: int|
        0 <= i < 5 ==> ((#[trigger] info.known@[i]) matches Some(c) ==> w[i] == c)
}

/// The subsequence of `pool` whose words survive the feedback record,
/// in their original order.
pub open spec fn filtered(pool: Seq<&str>, info: CurrentInfo) -> Seq<&str>
    decreases pool.len(),
{
    if pool.len() == 0 {
        Seq::empty()
    } else {
        let rest = filtered(pool.drop_last(), info);
        if keeps(info, pool.last()@) {
            rest.push(pool.last())
        } else {
            rest
        }
    }
}

pub proof fn lemma_filtered_take_step(pool: Seq<&str>, info: CurrentInfo, k: int)
    requires
        0 <= k < pool.len(),
    ensures
        filtered(pool.take(k + 1), info) == if keeps(info, pool[k]@) {
            filtered(pool.take(k), info).push(pool[k])
        } else {
            filtered(pool.take(k), info)
        },
{
    assert(pool.take(k + 1).drop_last() =~= pool.take(k));
    assert(pool.take(k + 1).last() == pool[k]);
}

pub proof fn lemma_filtered_elements_kept(pool: Seq<&str>, info: CurrentInfo)
    ensures
        forall|i: int|
            0 <= i < filtered(pool, info).len() ==> keeps(info, (#[trigger] filtered(
                pool,
                info,
            )[i])@),
    decreases pool.len(),
{
    if pool.len() > 0 {
        lemma_filtered_elements_kept(pool.drop_last(), info);
        let rest = filtered(pool.drop_last(), info);
        let whole = filtered(pool, info);
        assert forall|i: int| 0 <= i < whole.len() implies keeps(info, (#[trigger] whole[i])@) by {
            if i < rest.len() {
                assert(whole[i] == rest[i]);
            } else {
                assert(whole[i] == pool.last());
            }
        }
    }
}

pub proof fn lemma_filtered_all_kept(pool: Seq<&str>, info: CurrentInfo)
    requires
        forall|i: int| 0 <= i < pool.len() ==> keeps(info, (#[trigger] pool[i])@),
    ensures
        filtered(pool, info) == pool,
    decreases pool.len(),
{
    if pool.len() > 0 {
        lemma_filtered_all_kept(pool.drop_last(), info);
        assert(filtered(pool.drop_last(), info).push(pool.last()) =~= pool);
    }
}

/// Law: constraint filtering is idempotent.  Re-filtering an
/// already-filtered pool with the same feedback record changes nothing.
pub proof fn lemma_filter_idempotent(pool: Seq<&str>, info: CurrentInfo)
    ensures
        filtered(filtered(pool, info), info) == filtered(pool, info),
{
    lemma_filtered_elements_kept(pool, info);
    lemma_filtered_all_kept(filtered(pool, info), info);
}

/// A guessable word paired with its scaled heuristic score.
#[derive(Clone)]
pub struct Guess {
    pub guess: String,
    pub score: u64,
}

impl Guess {
    pub fn new() -> (g: Self)
        ensures
            g.score == 0,
            g.guess@ == "NO GUESS"@,
    {
        Self { guess: "NO GUESS".to_owned(), score: 0 }
    }
}

/// The letter at slot `j` already occurs earlier in the word.
pub open spec fn dup_before(w: Seq<char>, j: int) -> bool {
    exists|i: int| 0 <= i < j && w[i] == w[j]
}

/// The distribution counting the first `j` letters of `w`.
pub open spec fn prefix_dist(w: Seq<char>, j: int) -> Seq<nat>
    decreases j,
{
    if j <= 0 {
        empty_dist()
    } else {
        inc_dist(prefix_dist(w, j - 1), w[j - 1])
    }
}

pub proof fn lemma_prefix_dist(w: Seq<char>, j: int, c: char)
    requires
        0 <= j,
        forall|t: int| 0 <= t < j ==> is_letter(#[trigger] w[t]),
    ensures
        dist_wf(prefix_dist(w, j)),
        sum_counts(prefix_dist(w, j)) == j,
        dist_count(prefix_dist(w, j), c) > 0 <==> exists|t: int| 0 <= t < j && w[t] == c,
    decreases j,
{
    if j == 0 {
        lemma_sum_counts_all_zero(empty_dist());
    } else {
        let prev = prefix_dist(w, j - 1);
        lemma_prefix_dist(w, j - 1, c);
        lemma_sum_counts_update(prev, letter_index(w[j - 1]), prev[letter_index(w[j - 1])] + 1);
        if c == w[j - 1] {
            assert(dist_count(prefix_dist(w, j), c) == dist_count(prev, c) + 1);
        } else {
            if is_letter(c) {
                assert(letter_index(c) != letter_index(w[j - 1]));
            }
            assert(dist_count(prefix_dist(w, j), c) == dist_count(prev, c));
            assert((exists|t: int| 0 <= t < j && w[t] == c) == (exists|t: int|
                0 <= t < j - 1 && w[t] == c));
        }
    }
}

/// Positional weight for slot `j`: 15 for a fresh letter, 6 for a repeat.
pub open spec fn specific_weight(w: Seq<char>, j: int) -> int {
    if dup_before(w, j) {
        6
    } else {
        15
    }
}

/// Aggregate weight for slot `j`: 12 for a fresh letter, 4 for a repeat.
pub open spec fn general_weight(w: Seq<char>, j: int) -> int {
    if dup_before(w, j) {
        4
    } else {
        12
    }
}

/// Scaled positional contribution of the first `j` slots.
#[verifier::opaque]
pub open spec fn specific_part(w: Seq<char>, m: Seq<Seq<nat>>, j: int) -> int
    decreases j,
{
    if j <= 0 {
        0
    } else {
        specific_part(w, m, j - 1) + 5 * dist_count(m[j - 1], w[j - 1]) * specific_weight(
            w,
            j - 1,
        )
    }
}

/// Scaled aggregate contribution of the first `j` slots.
#[verifier::opaque]
pub open spec fn general_part(w: Seq<char>, m: Seq<Seq<nat>>, j: int) -> int
    decreases j,
{
    if j <= 0 {
        0
    } else {
        general_part(w, m, j - 1) + model_count(m, w[j - 1]) * general_weight(w, j - 1)
    }
}

/// The scaled heuristic score of word `w` against model `m`.  When every
/// slot total of `m` equals `n`, this is `5 * n` times the frequency
/// heuristic described in the module documentation.
pub open spec fn score_spec(w: Seq<char>, m: Seq<Seq<nat>>) -> int {
    specific_part(w, m, 5) + general_part(w, m, 5)
}

pub proof fn lemma_parts_zero_model(w: Seq<char>, m: Seq<Seq<nat>>, j: int)
    requires
        model_wf(m),
        forall|i: int| 0 <= i < 5 ==> sum_counts(#[trigger] m[i]) == 0,
        0 <= j <= 5,
    ensures
        specific_part(w, m, j) == 0,
        general_part(w, m, j) == 0,
    decreases j,
{
    reveal(specific_part);
    reveal(general_part);
    assert forall|i: int, c: char| 0 <= i < 5 implies #[trigger] dist_count(m[i], c) == 0 by {
        if dist_wf(m[i]) && is_letter(c) {
            lemma_sum_counts_zero_implies_each_zero(m[i], letter_index(c));
        }
    }
    if j > 0 {
        lemma_parts_zero_model(w, m, j - 1);
    }
}

/// Law: against a model whose five slot totals are all zero — in particular
/// the model built from an empty corpus — every word scores zero.
pub proof fn lemma_score_zero_for_zero_model(w: Seq<char>, m: Seq<Seq<nat>>)
    requires
        model_wf(m),
        forall|i: int| 0 <= i < 5 ==> sum_counts(#[trigger] m[i]) == 0,
    ensures
        score_spec(w, m) == 0,
{
    lemma_parts_zero_model(w, m, 5);
}

/// The scaled heuristic score of `guess` against the distributions of
/// `frequency`: slot by slot, a fresh letter contributes its positional
/// count at weight 15 and its aggregate count at weight 12, a repeated
/// letter the same counts at weights 6 and 4.
#[verifier::rlimit(30)]
pub fn score(guess: &str, frequency: &FrequencySet) -> (r: u64)
    requires
        frequency.wf(),
        word_wf(guess@),
    ensures
        r as int == score_spec(guess@, frequency@),
{
    let ghost w = guess@;
    let ghost m = frequency@;
    let mut specific: u64 = 0;
    let mut general: u64 = 0;
    let mut duplicates = FrequencyDistribution::new();
    proof {
        lemma_sum_counts_all_zero(duplicates@);
        assert(specific as int == specific_part(w, m, 0)) by {
            reveal(specific_part);
        }
        assert(general as int == general_part(w, m, 0)) by {
            reveal(general_part);
        }
    }
    let mut j: usize = 0;
    while j < 5
        invariant
            j <= 5,
            w == guess@,
            m == frequency@,
            word_wf(w),
            frequency.wf(),
            duplicates.wf(),
            duplicates@ == prefix_dist(w, j as int),
            specific as int == specific_part(w, m, j as int),
            general as int == general_part(w, m, j as int),
            specific as int <= 75 * 0xffff_ffff * (j as int),
            general as int <= 60 * 0xffff_ffff * (j as int),
        decreases 5 - j,
    {
        let c = guess.get_char(j);
        let is_duplicate = duplicates.char_count(c) > 0;
        proof {
            assert(is_letter(c));
            lemma_prefix_dist(w, j as int, c);
            assert(is_duplicate == dup_before(w, j as int));
        }
        let dist = match frequency.distribution_for_index(j) {
            Ok(d) => d,
            Err(_) => unreached(),
        };
        let cnt = dist.char_count(c) as u64;
        let agg = frequency.char_count(c);
        proof {
            assert(cnt <= 0xffff_ffff);
            assert(agg <= 5 * 0xffff_ffff);
        }
        let add_specific: u64 = if is_duplicate {
            30 * cnt
        } else {
            75 * cnt
        };
        let add_general: u64 = if is_duplicate {
            4 * agg
        } else {
            12 * agg
        };
        proof {
            assert(add_specific <= 75 * 0xffff_ffff);
            assert(add_general <= 60 * 0xffff_ffff);
            assert(add_specific as int == 5 * dist_count(m[j as int], w[j as int])
                * specific_weight(w, j as int));
            assert(add_general as int == model_count(m, w[j as int]) * general_weight(
                w,
                j as int,
            ));
            assert(specific as int + add_specific as int == specific_part(w, m, j as int + 1)) by {
                reveal(specific_part);
            }
            assert(general as int + add_general as int == general_part(w, m, j as int + 1)) by {
                reveal(general_part);
            }
            assert(specific as int + add_specific as int <= 75 * 0xffff_ffff * 5)
                by (nonlinear_arith)
                requires
                    specific as int <= 75 * 0xffff_ffff * (j as int),
                    add_specific as int <= 75 * 0xffff_ffff,
                    0 <= j as int <= 4,
            ;
            assert(general as int + add_general as int <= 60 * 0xffff_ffff * 5)
                by (nonlinear_arith)
                requires
                    general as int <= 60 * 0xffff_ffff * (j as int),
                    add_general as int <= 60 * 0xffff_ffff,
                    0 <= j as int <= 4,
            ;
        }
        specific = specific + add_specific;
        general = general + add_general;
        duplicates.increment_char(c);
        proof {
            assert(duplicates@ == prefix_dist(w, j as int + 1));
            assert(specific as int <= 75 * 0xffff_ffff * (j as int + 1)) by (nonlinear_arith)
                requires
                    specific as int <= 75 * 0xffff_ffff * (j as int) + 75 * 0xffff_ffff,
            ;
            assert(general as int <= 60 * 0xffff_ffff * (j as int + 1)) by (nonlinear_arith)
                requires
                    general as int <= 60 * 0xffff_ffff * (j as int) + 60 * 0xffff_ffff,
            ;
        }
        j = j + 1;
    }
    proof {
        assert(specific as int + general as int <= 135 * 0xffff_ffff * 5) by (nonlinear_arith)
            requires
                specific as int <= 75 * 0xffff_ffff * (j as int),
                general as int <= 60 * 0xffff_ffff * (j as int),
                j as int == 5,
        ;
    }
    specific + general
}

/// Number of words in `wv[lo..hi]` whose score against `m` exceeds `x`.
pub open spec fn count_above(wv: Seq<Seq<char>>, lo: int, hi: int, m: Seq<Seq<nat>>, x: int) -> int
    decreases hi - lo,
{
    if hi <= lo {
        0
    } else {
        count_above(wv, lo, hi - 1, m, x) + if score_spec(wv[hi - 1], m) > x {
            1int
        } else {
            0int
        }
    }
}

/// Number of words in `wv[lo..hi]` whose score against `m` is at least `x`.
pub open spec fn count_at_least(
    wv: Seq<Seq<char>>,
    lo: int,
    hi: int,
    m: Seq<Seq<nat>>,
    x: int,
) -> int
    decreases hi - lo,
{
    if hi <= lo {
        0
    } else {
        count_at_least(wv, lo, hi - 1, m, x) + if score_spec(wv[hi - 1], m) >= x {
            1int
        } else {
            0int
        }
    }
}

pub proof fn lemma_counts_nonneg(wv: Seq<Seq<char>>, lo: int, hi: int, m: Seq<Seq<nat>>, x: int)
    ensures
        count_above(wv, lo, hi, m, x) >= 0,
        count_at_least(wv, lo, hi, m, x) >= 0,
    decreases hi - lo,
{
    if hi > lo {
        lemma_counts_nonneg(wv, lo, hi - 1, m, x);
    }
}

pub proof fn lemma_counts_mono(
    wv: Seq<Seq<char>>,
    lo: int,
    hi: int,
    m: Seq<Seq<nat>>,
    x: int,
    y: int,
)
    requires
        x <= y,
    ensures
        count_above(wv, lo, hi, m, y) <= count_above(wv, lo, hi, m, x),
        count_at_least(wv, lo, hi, m, y) <= count_at_least(wv, lo, hi, m, x),
    decreases hi - lo,
{
    if hi > lo {
        lemma_counts_mono(wv, lo, hi - 1, m, x, y);
    }
}

pub proof fn lemma_count_above_all_le(
    wv: Seq<Seq<char>>,
    lo: int,
    hi: int,
    m: Seq<Seq<nat>>,
    x: int,
)
    requires
        forall|j: int| lo <= j < hi ==> score_spec(#[trigger] wv[j], m) <= x,
    ensures
        count_above(wv, lo, hi, m, x) == 0,
    decreases hi - lo,
{
    if hi > lo {
        lemma_count_above_all_le(wv, lo, hi - 1, m, x);
    }
}

/// Size of each of the `k` contiguous vocabulary windows.
pub open spec fn chunk_size(len: int, k: int) -> int {
    len / k
}

/// First index of window `chunk`.
pub open spec fn chunk_lo(len: int, k: int, chunk: int) -> int {
    chunk * chunk_size(len, k)
}

/// One past the last index of window `chunk`.
pub open spec fn chunk_hi(len: int, k: int, chunk: int) -> int {
    chunk_lo(len, k, chunk) + chunk_size(len, k)
}

/// Number of vocabulary words covered by the `k` windows together.  The
/// trailing `len % k` words are not processed by any window.
pub open spec fn processed_len(len: int, k: int) -> int {
    (len / k) * k
}

pub proof fn lemma_chunk_bounds(len: int, k: int, chunk: int)
    requires
        0 <= len,
        1 <= k,
        0 <= chunk < k,
    ensures
        0 <= chunk_size(len, k),
        0 <= chunk_lo(len, k, chunk),
        chunk_hi(len, k, chunk) <= processed_len(len, k),
        processed_len(len, k) <= len,
{
    let cs = len / k;
    vstd::arithmetic::div_mod::lemma_div_pos_is_pos(len, k);
    vstd::arithmetic::div_mod::lemma_fundamental_div_mod(len, k);
    vstd::arithmetic::div_mod::lemma_mod_bound(len, k);
    assert(k * cs <= len);
    assert(0 <= chunk * cs && (chunk + 1) * cs <= k * cs) by (nonlinear_arith)
        requires
            0 <= chunk,
            chunk + 1 <= k,
            0 <= cs,
    ;
    assert(cs * k == k * cs) by (nonlinear_arith);
    assert(chunk * cs + cs == (chunk + 1) * cs) by (nonlinear_arith);
}

/// Law: with a single window the search covers the whole vocabulary, so the
/// first ranked guess scores at least as well as anything an exhaustive
/// sequential scan could find.
pub proof fn lemma_single_chunk_covers_all(len: int)
    requires
        0 <= len,
    ensures
        processed_len(len, 1) == len,
        chunk_lo(len, 1, 0) == 0,
        chunk_hi(len, 1, 0) == len,
{
}

/// The best score an exhaustive sequential scan of `wv[0..n]` finds, with
/// 0 — the placeholder score — when nothing beats it.
pub open spec fn max_score_prefix(wv: Seq<Seq<char>>, n: int, m: Seq<Seq<nat>>) -> int
    decreases n,
{
    if n <= 0 {
        0
    } else {
        let rest = max_score_prefix(wv, n - 1, m);
        if score_spec(wv[n - 1], m) > rest {
            score_spec(wv[n - 1], m)
        } else {
            rest
        }
    }
}

pub proof fn lemma_max_score_prefix_nonneg(wv: Seq<Seq<char>>, n: int, m: Seq<Seq<nat>>)
    ensures
        max_score_prefix(wv, n, m) >= 0,
    decreases n,
{
    if n > 0 {
        lemma_max_score_prefix_nonneg(wv, n - 1, m);
    }
}

pub proof fn lemma_max_score_prefix_ge(wv: Seq<Seq<char>>, n: int, m: Seq<Seq<nat>>, j: int)
    requires
        0 <= j < n,
    ensures
        score_spec(wv[j], m) <= max_score_prefix(wv, n, m),
    decreases n,
{
    if j < n - 1 {
        lemma_max_score_prefix_ge(wv, n - 1, m, j);
    }
}

pub proof fn lemma_max_score_prefix_le(wv: Seq<Seq<char>>, n: int, m: Seq<Seq<nat>>, x: int)
    requires
        x >= 0,
        forall|j: int| 0 <= j < n ==> score_spec(#[trigger] wv[j], m) <= x,
    ensures
        max_score_prefix(wv, n, m) <= x,
    decreases n,
{
    if n > 0 {
        lemma_max_score_prefix_le(wv, n - 1, m, x);
    }
}

/// Law: a first-ranked score that bounds every word of the vocabulary and
/// is attained whenever it is positive — exactly what the search's contract
/// gives for its first entry once a single worker's window is the whole
/// vocabulary — equals the maximum that an exhaustive sequential scan
/// finds.
pub proof fn lemma_single_worker_first_is_exhaustive_max(
    wv: Seq<Seq<char>>,
    m: Seq<Seq<nat>>,
    len: int,
    best: int,
)
    requires
        0 <= len,
        best >= 0,
        forall|j: int| 0 <= j < len ==> score_spec(#[trigger] wv[j], m) <= best,
        best > 0 ==> exists|j: int| 0 <= j < len && score_spec(#[trigger] wv[j], m) == best,
    ensures
        best == max_score_prefix(wv, len, m),
{
    lemma_max_score_prefix_le(wv, len, m, best);
    if best > 0 {
        let j = choose|j: int| 0 <= j < len && score_spec(#[trigger] wv[j], m) == best;
        lemma_max_score_prefix_ge(wv, len, m, j);
    } else {
        lemma_max_score_prefix_nonneg(wv, len, m);
    }
}

/// What a window scan promises of its three result slots, over the window
/// `wv[lo..hi]` scored against model `m`: descending order; the first slot
/// bounds every window score; at most one window score exceeds the second
/// slot and at most two exceed the third, while at least two reach the
/// second and at least three reach the third (when those slots are filled);
/// every filled slot names a window word with its true score; an unfilled
/// slot keeps the placeholder.
pub open spec fn worker_post(
    top: Seq<Guess>,
    wv: Seq<Seq<char>>,
    m: Seq<Seq<nat>>,
    lo: int,
    hi: int,
) -> bool {
    &&& top.len() == 3
    &&& top[0].score >= top[1].score >= top[2].score
    &&& forall|j: int| lo <= j < hi ==> score_spec(#[trigger] wv[j], m) <= top[0].score
    &&& count_above(wv, lo, hi, m, top[1].score as int) <= 1
    &&& count_above(wv, lo, hi, m, top[2].score as int) <= 2
    &&& forall|q: int|
        0 <= q < 3 && (#[trigger] top[q]).score > 0 ==> exists|j: int|
            lo <= j < hi && wv[j] == top[q].guess@ && score_spec(wv[j], m) == top[q].score
    &&& forall|q: int|
        0 <= q < 3 && (#[trigger] top[q]).score == 0 ==> top[q].guess@ == "NO GUESS"@
    &&& top[0].score > 0 ==> count_at_least(wv, lo, hi, m, top[0].score as int) >= 1
    &&& top[1].score > 0 ==> count_at_least(wv, lo, hi, m, top[1].score as int) >= 2
    &&& top[2].score > 0 ==> count_at_least(wv, lo, hi, m, top[2].score as int) >= 3
}

/// The combined multiset of entries of a list of worker results.
pub open spec fn guesses_multiset(parts: Seq<Seq<Guess>>) -> Multiset<Guess>
    decreases parts.len(),
{
    if parts.len() == 0 {
        Multiset::empty()
    } else {
        guesses_multiset(parts.drop_last()).add(parts.last().to_multiset())
    }
}

/// Scans window `chunk` of `num_chunks` over the vocabulary `words` and
/// returns that window's three best guesses, in descending score order,
/// against a model built from `answers`.  Ties never displace an earlier
/// holder of a slot.
pub fn worker_top_guesses(
    words: &Vec<&str>,
    answers: &Vec<&str>,
    chunk: usize,
    num_chunks: usize,
) -> (top: Vec<Guess>)
    requires
        1 <= num_chunks,
        chunk < num_chunks,
        forall|k: int| 0 <= k < words@.len() ==> word_wf((#[trigger] words@[k])@),
        forall|k: int| 0 <= k < answers@.len() ==> word_wf((#[trigger] answers@[k])@),
        answers@.len() <= u32::MAX,
    ensures
        ({
            let wv = crate::freq::views_of(words@);
            let m = crate::freq::built_model(crate::freq::views_of(answers@));
            let lo = chunk_lo(words@.len() as int, num_chunks as int, chunk as int);
            let hi = chunk_hi(words@.len() as int, num_chunks as int, chunk as int);
            worker_post(top@, wv, m, lo, hi)
        }),
{
    let ghost wv = crate::freq::views_of(words@);
    let ghost m = crate::freq::built_model(crate::freq::views_of(answers@));
    let ghost len = words@.len() as int;
    let ghost k = num_chunks as int;

    let chunk_len = words.len() / num_chunks;
    proof {
        lemma_chunk_bounds(len, k, chunk as int);
    }
    let lo = chunk * chunk_len;
    let hi = lo + chunk_len;

    let mut first = Guess::new();
    let mut second = Guess::new();
    let mut third = Guess::new();

    let mut frequency = FrequencySet::new();
    proof {
        crate::freq::lemma_empty_model_totals();
    }
    frequency.build_set_from_words(answers);

    let mut p: usize = lo;
    proof {
        lemma_counts_nonneg(wv, lo as int, lo as int, m, 0);
    }
    while p < hi
        invariant
            lo <= p <= hi,
            lo == chunk_lo(len, k, chunk as int),
            hi == chunk_hi(len, k, chunk as int),
            hi <= words@.len(),
            len == words@.len() as int,
            k == num_chunks as int,
            wv == crate::freq::views_of(words@),
            m == crate::freq::built_model(crate::freq::views_of(answers@)),
            frequency.wf(),
            frequency@ == m,
            forall|t: int| 0 <= t < words@.len() ==> word_wf((#[trigger] words@[t])@),
            first.score >= second.score >= third.score,
            forall|j: int| lo <= j < p ==> score_spec(#[trigger] wv[j], m) <= first.score,
            count_above(wv, lo as int, p as int, m, second.score as int) <= 1,
            count_above(wv, lo as int, p as int, m, third.score as int) <= 2,
            first.score > 0 ==> count_at_least(wv, lo as int, p as int, m, first.score as int)
                >= 1,
            second.score > 0 ==> count_at_least(wv, lo as int, p as int, m, second.score as int)
                >= 2,
            third.score > 0 ==> count_at_least(wv, lo as int, p as int, m, third.score as int)
                >= 3,
            first.score > 0 ==> exists|j: int|
                lo <= j < p && wv[j] == first.guess@ && score_spec(wv[j], m) == first.score,
            second.score > 0 ==> exists|j: int|
                lo <= j < p && wv[j] == second.guess@ && score_spec(wv[j], m) == second.score,
            third.score > 0 ==> exists|j: int|
                lo <= j < p && wv[j] == third.guess@ && score_spec(wv[j], m) == third.score,
            first.score == 0 ==> first.guess@ == "NO GUESS"@,
            second.score == 0 ==> second.guess@ == "NO GUESS"@,
            third.score == 0 ==> third.guess@ == "NO GUESS"@,
        decreases hi - p,
    {
        let guess_word = words[p];
        let total = score(guess_word, &frequency);
        let ghost v = total as int;
        let ghost f0 = first;
        let ghost s0 = second;
        let ghost t0 = third;
        proof {
            assert(wv[p as int] == guess_word@);
            assert(score_spec(wv[p as int], m) == v);
            lemma_counts_nonneg(wv, lo as int, p as int, m, v);
        }
        if first.score < total {
            third = second;
            second = first;
            first = Guess { guess: guess_word.to_owned(), score: total };
            proof {
                lemma_count_above_all_le(wv, lo as int, p as int, m, f0.score as int);
                lemma_counts_mono(wv, lo as int, p as int, m, s0.score as int, f0.score as int);
            }
        } else if second.score < total {
            third = second;
            second = Guess { guess: guess_word.to_owned(), score: total };
            proof {
                lemma_counts_mono(wv, lo as int, p as int, m, s0.score as int, v);
                lemma_counts_mono(wv, lo as int, p as int, m, v, f0.score as int);
            }
        } else if third.score < total {
            third = Guess { guess: guess_word.to_owned(), score: total };
            proof {
                lemma_counts_mono(wv, lo as int, p as int, m, t0.score as int, v);
                lemma_counts_mono(wv, lo as int, p as int, m, v, s0.score as int);
            }
        } else {
            proof {
                lemma_counts_nonneg(wv, lo as int, p as int, m, s0.score as int);
            }
        }
        proof {
            assert(count_above(wv, lo as int, p as int + 1, m, second.score as int)
                == count_above(wv, lo as int, p as int, m, second.score as int) + if score_spec(
                wv[p as int],
                m,
            ) > second.score as int {
                1int
            } else {
                0int
            });
        }
        p = p + 1;
    }

    let mut top: Vec<Guess> = Vec::new();
    top.push(first);
    top.push(second);
    top.push(third);
    top
}

/// Guesses in descending score order.
pub open spec fn sorted_desc(s: Seq<Guess>) -> bool {
    forall|i: int, j: int|
        0 <= i <= j < s.len() ==> (#[trigger] s[i]).score >= (#[trigger] s[j]).score
}

pub proof fn lemma_to_multiset_insert<A>(s: Seq<A>, p: int, x: A)
    requires
        0 <= p <= s.len(),
    ensures
        s.insert(p, x).to_multiset() == s.to_multiset().insert(x),
{
    broadcast use vstd::seq_lib::group_to_multiset_ensures;

    let a = s.subrange(0, p);
    let b = s.subrange(p, s.len() as int);
    vstd::seq_lib::lemma_multiset_commutative(a.push(x), b);
    vstd::seq_lib::lemma_multiset_commutative(a, b);
    assert(s =~= a + b);
    assert(a.push(x).to_multiset() =~= a.to_multiset().insert(x));
    assert(s.insert(p, x).to_multiset() =~= s.to_multiset().insert(x));
}

/// Sorts the guesses in place, descending by score.  The result is a
/// permutation of the input: same length, same multiset of entries.
pub fn sort_guesses(guesses: &mut Vec<Guess>)
    ensures
        final(guesses)@.len() == old(guesses)@.len(),
        sorted_desc(final(guesses)@),
        final(guesses)@.to_multiset() == old(guesses)@.to_multiset(),
{
    let n = guesses.len();
    if n <= 1 {
        return ;
    }
    let mut i: usize = 1;
    while i < n
        invariant
            1 <= i <= n,
            n == guesses@.len(),
            sorted_desc(guesses@.take(i as int)),
            guesses@.to_multiset() == old(guesses)@.to_multiset(),
        decreases n - i,
    {
        let ghost pre = guesses@;
        let x = guesses.remove(i);
        let ghost mid = guesses@;
        proof {
            broadcast use vstd::seq_lib::group_to_multiset_ensures;

            assert(mid.to_multiset() == pre.to_multiset().remove(x));
            assert(forall|t: int| 0 <= t < i ==> mid[t] == #[trigger] pre[t]);
        }
        let mut p: usize = 0;
        while p < i
            invariant
                p <= i,
                i < n,
                n == guesses@.len() + 1,
                mid == guesses@,
                forall|t: int| 0 <= t < p ==> (#[trigger] mid[t]).score >= x.score,
            ensures
                p <= i,
                mid == guesses@,
                forall|t: int| 0 <= t < p ==> (#[trigger] mid[t]).score >= x.score,
                p < i ==> mid[p as int].score < x.score,
            decreases i - p,
        {
            if guesses[p].score < x.score {
                break ;
            }
            p = p + 1;
        }
        guesses.insert(p, x);
        proof {
            pre.insert_ensures(p as int, x);
            mid.insert_ensures(p as int, x);
            lemma_to_multiset_insert(mid, p as int, x);
            broadcast use vstd::seq_lib::group_to_multiset_ensures;

            assert(pre.to_multiset().contains(pre[i as int]));
            assert(guesses@.to_multiset() =~= pre.to_multiset());
            assert forall|a: int, b: int| 0 <= a <= b < i + 1 implies (#[trigger] guesses@[a]).score
                >= (#[trigger] guesses@[b]).score by {
                if b < p {
                    assert(guesses@[a] == mid[a] && guesses@[b] == mid[b]);
                    assert(sorted_desc(pre.take(i as int)));
                    assert(pre.take(i as int)[a] == mid[a]);
                } else if b == p {
                    if a < p {
                        assert(guesses@[a] == mid[a]);
                    }
                } else {
                    assert(guesses@[b] == mid[b - 1]);
                    assert(p <= b - 1 < i);
                    assert(mid[p as int].score < x.score);
                    assert(pre.take(i as int)[p as int] == mid[p as int]);
                    assert(pre.take(i as int)[b - 1] == mid[b - 1]);
                    assert(mid[b - 1].score <= mid[p as int].score);
                    if a < p {
                        assert(guesses@[a] == mid[a]);
                        assert(mid[a].score >= x.score);
                    } else if a == p {
                        assert(guesses@[a] == x);
                    } else {
                        assert(guesses@[a] == mid[a - 1]);
                        assert(pre.take(i as int)[a - 1] == mid[a - 1]);
                        assert(mid[a - 1].score <= mid[p as int].score);
                        assert(p <= a - 1 <= b - 1 < i);
                        assert(mid[a - 1].score >= mid[b - 1].score);
                    }
                }
            }
            assert(sorted_desc(guesses@.take(i as int + 1)));
        }
        i = i + 1;
    }
    proof {
        assert(guesses@.take(n as int) =~= guesses@);
    }
}

/// True when the word contains the character at any of its five slots.
fn word_contains(w: &str, c: char) -> (r: bool)
    requires
        word_wf(w@),
    ensures
        r == w@.contains(c),
{
    let mut j: usize = 0;
    let mut found = false;
    while j < 5
        invariant
            j <= 5,
            word_wf(w@),
            found == exists|t: int| 0 <= t < j && w@[t] == c,
        decreases 5 - j,
    {
        if w.get_char(j) == c {
            found = true;
        }
        j = j + 1;
    }
    proof {
        if w@.contains(c) {
            let t = choose|t: int| 0 <= t < w@.len() && w@[t] == c;
            assert(0 <= t < 5 && w@[t] == c);
        }
    }
    found
}

/// Keeps the candidates of `answers` that are consistent with the feedback
/// in `info`, preserving their order.
pub fn possible_remaining_answers<'a>(answers: &Vec<&'a str>, info: &CurrentInfo) -> (remaining:
    Vec<&'a str>)
    requires
        forall|k: int| 0 <= k < answers@.len() ==> word_wf((#[trigger] answers@[k])@),
    ensures
        remaining@ == filtered(answers@, *info),
{
    let mut remaining: Vec<&'a str> = Vec::new();
    let n = answers.len();
    let mut ai: usize = 0;
    while ai < n
        invariant
            ai <= n,
            n == answers@.len(),
            forall|k: int| 0 <= k < answers@.len() ==> word_wf((#[trigger] answers@[k])@),
            remaining@ == filtered(answers@.take(ai as int), *info),
        decreases n - ai,
    {
        let answer = answers[ai];

        let mut ok_excluded = true;
        let ne = info.excluded.len();
        let mut k: usize = 0;
        while k < ne
            invariant
                k <= ne,
                ne == info.excluded@.len(),
                word_wf(answer@),
                ok_excluded == forall|t: int|
                    0 <= t < k ==> !answer@.contains(#[trigger] info.excluded@[t]),
            decreases ne - k,
        {
            let c = info.excluded[k];
            if word_contains(answer, c) {
                ok_excluded = false;
            }
            k = k + 1;
        }

        let mut ok_somewhere = true;
        let ns = info.somewhere.len();
        let mut k: usize = 0;
        while k < ns
            invariant
                k <= ns,
                ns == info.somewhere@.len(),
                word_wf(answer@),
                ok_somewhere == forall|t: int|
                    0 <= t < k ==> answer@.contains(#[trigger] info.somewhere@[t]),
            decreases ns - k,
        {
            let c = info.somewhere[k];
            if !word_contains(answer, c) {
                ok_somewhere = false;
            }
            k = k + 1;
        }

        let mut ok_exists = true;
        let mut i: usize = 0;
        while i < 5
            invariant
                i <= 5,
                word_wf(answer@),
                info.exists_at@.len() == 5,
                ok_exists == forall|t: int|
                    0 <= t < i ==> (#[trigger] info.exists_at@[t]) != Some(answer@[t]),
            decreases 5 - i,
        {
            let letter = answer.get_char(i);
            if let Some(not_here) = info.exists_at[i] {
                if not_here == letter {
                    ok_exists = false;
                }
            }
            i = i + 1;
        }

        let mut ok_known = true;
        let mut i: usize = 0;
        while i < 5
            invariant
                i <= 5,
                word_wf(answer@),
                info.known@.len() == 5,
                ok_known == forall|t: int|
                    0 <= t < i ==> ((#[trigger] info.known@[t]) matches Some(c) ==> answer@[t]
                        == c),
            decreases 5 - i,
        {
            let letter = answer.get_char(i);
            if let Some(required) = info.known[i] {
                if required != letter {
                    ok_known = false;
                }
            }
            i = i + 1;
        }

        let valid = ok_excluded && ok_somewhere && ok_exists && ok_known;
        proof {
            assert(valid == keeps(*info, answer@));
            lemma_filtered_take_step(answers@, *info, ai as int);
        }
        if valid {
            remaining.push(answer);
        }
        ai = ai + 1;
    }
    proof {
        assert(answers@.take(n as int) =~= answers@);
    }
    remaining
}

/// Ranks the vocabulary against a model built from `answers`: the `k`
/// contiguous windows of `floor(len / k)` words are each scanned for their
/// local top three, and the `3 * k` results are merged and sorted by
/// descending score.  Words in the trailing `len % k` remainder are not
/// scanned.  The first ranked guess scores at least as well as every
/// scanned word; deeper ranks can lose words to a window's local cap of
/// three.
pub fn best_guesses(thread_count: i32, words: &Vec<&str>, answers: &Vec<&str>) -> (ranked: Vec<
    Guess,
>)
    requires
        1 <= thread_count,
        forall|k: int| 0 <= k < words@.len() ==> word_wf((#[trigger] words@[k])@),
        forall|k: int| 0 <= k < answers@.len() ==> word_wf((#[trigger] answers@[k])@),
        answers@.len() <= u32::MAX,
    ensures
        ({
            let wv = crate::freq::views_of(words@);
            let m = crate::freq::built_model(crate::freq::views_of(answers@));
            let pl = processed_len(words@.len() as int, thread_count as int);
            &&& ranked@.len() == 3 * thread_count
            &&& sorted_desc(ranked@)
            &&& forall|j: int| 0 <= j < pl ==> score_spec(#[trigger] wv[j], m) <= ranked@[0].score
            &&& forall|q: int|
                0 <= q < ranked@.len() && (#[trigger] ranked@[q]).score > 0 ==> exists|j: int|
                    0 <= j < pl && wv[j] == ranked@[q].guess@
                        && score_spec(wv[j], m) == ranked@[q].score
            &&& forall|q: int|
                0 <= q < ranked@.len() && (#[trigger] ranked@[q]).score == 0 ==> ranked@[q].guess@
                    == "NO GUESS"@
            &&& exists|parts: Seq<Seq<Guess>>|
                #![trigger guesses_multiset(parts)]
                {
                    &&& parts.len() == thread_count as int
                    &&& forall|c: int|
                        0 <= c < parts.len() ==> worker_post(
                            #[trigger] parts[c],
                            wv,
                            m,
                            chunk_lo(words@.len() as int, thread_count as int, c),
                            chunk_hi(words@.len() as int, thread_count as int, c),
                        )
                    &&& ranked@.to_multiset() == guesses_multiset(parts)
                }
        }),
{
    let ghost wv = crate::freq::views_of(words@);
    let ghost m = crate::freq::built_model(crate::freq::views_of(answers@));
    let ghost len = words@.len() as int;
    let ghost kk = thread_count as int;
    let ghost cs = chunk_size(len, kk);

    let k = thread_count as usize;
    let mut results: Vec<Guess> = Vec::new();
    let ghost mut parts: Seq<Seq<Guess>> = Seq::empty();
    proof {
        broadcast use vstd::seq_lib::group_to_multiset_ensures;

        assert(results@.to_multiset() =~= Multiset::<Guess>::empty());
        assert(guesses_multiset(parts) == Multiset::<Guess>::empty());
    }
    let mut i: usize = 0;
    while i < k
        invariant
            i <= k,
            k == kk,
            1 <= kk,
            len == words@.len() as int,
            cs == chunk_size(len, kk),
            wv == crate::freq::views_of(words@),
            m == crate::freq::built_model(crate::freq::views_of(answers@)),
            forall|t: int| 0 <= t < words@.len() ==> word_wf((#[trigger] words@[t])@),
            forall|t: int| 0 <= t < answers@.len() ==> word_wf((#[trigger] answers@[t])@),
            answers@.len() <= u32::MAX,
            results@.len() == 3 * i,
            forall|j: int|
                #![trigger wv[j]]
                0 <= j < i as int * cs ==> exists|q: int|
                    0 <= q < results@.len() && (#[trigger] results@[q]).score as int >= score_spec(
                        wv[j],
                        m,
                    ),
            forall|q: int|
                0 <= q < results@.len() && (#[trigger] results@[q]).score > 0 ==> exists|j: int|
                    0 <= j < i as int * cs && wv[j] == results@[q].guess@
                        && score_spec(wv[j], m) == results@[q].score,
            forall|q: int|
                0 <= q < results@.len() && (#[trigger] results@[q]).score == 0 ==> results@[
                    q
                ].guess@ == "NO GUESS"@,
            parts.len() == i as int,
            forall|c: int|
                0 <= c < parts.len() ==> worker_post(
                    #[trigger] parts[c],
                    wv,
                    m,
                    chunk_lo(len, kk, c),
                    chunk_hi(len, kk, c),
                ),
            results@.to_multiset() == guesses_multiset(parts),
        decreases k - i,
    {
        proof {
            lemma_chunk_bounds(len, kk, i as int);
            assert(i as int * cs + cs == (i as int + 1) * cs) by (nonlinear_arith);
            assert(0 <= i as int * cs) by (nonlinear_arith)
                requires
                    0 <= i as int,
                    0 <= cs,
            ;
        }
        let ghost old_results = results@;
        let ghost old_parts = parts;
        let mut t = worker_top_guesses(words, answers, i, k);
        let ghost tops = t@;
        results.append(&mut t);
        proof {
            let lo = chunk_lo(len, kk, i as int);
            let hi = chunk_hi(len, kk, i as int);
            assert(lo == i as int * cs && hi == i as int * cs + cs);
            parts = parts.push(tops);
            assert(parts.drop_last() =~= old_parts);
            assert(parts.last() == tops);
            assert(guesses_multiset(parts) == guesses_multiset(old_parts).add(tops.to_multiset()));
            assert(results@ =~= old_results + tops);
            vstd::seq_lib::lemma_multiset_commutative(old_results, tops);
            assert(results@.to_multiset() == guesses_multiset(parts));
            assert forall|c: int| 0 <= c < parts.len() implies worker_post(
                #[trigger] parts[c],
                wv,
                m,
                chunk_lo(len, kk, c),
                chunk_hi(len, kk, c),
            ) by {
                if c < i as int {
                    assert(parts[c] == old_parts[c]);
                } else {
                    assert(parts[c] == tops);
                }
            }
            assert forall|j: int| #![trigger wv[j]] 0 <= j < (i as int + 1) * cs implies exists|q: int|
                0 <= q < results@.len() && (#[trigger] results@[q]).score as int >= score_spec(
                    wv[j],
                    m,
                ) by {
                if j < i as int * cs {
                    let q0 = choose|q0: int|
                        0 <= q0 < old_results.len() && (#[trigger] old_results[q0]).score as int
                            >= score_spec(wv[j], m);
                    assert(results@[q0] == old_results[q0]);
                } else {
                    let q1 = old_results.len() as int;
                    assert(results@[q1].score as int >= score_spec(wv[j], m));
                }
            }
            assert forall|q: int|
                0 <= q < results@.len() && (#[trigger] results@[q]).score > 0 implies exists|j: int|
                0 <= j < (i as int + 1) * cs && wv[j] == results@[q].guess@
                    && score_spec(wv[j], m) == results@[q].score by {
                if q < old_results.len() {
                    assert(results@[q] == old_results[q]);
                    let j0 = choose|j0: int|
                        0 <= j0 < i as int * cs && wv[j0] == old_results[q].guess@
                            && score_spec(wv[j0], m) == old_results[q].score;
                    assert(0 <= j0 < (i as int + 1) * cs);
                } else {
                    let j1 = choose|j1: int|
                        lo <= j1 < hi && wv[j1] == results@[q].guess@
                            && score_spec(wv[j1], m) == results@[q].score;
                    assert(0 <= j1 < (i as int + 1) * cs);
                }
            }
        }
        i = i + 1;
    }
    proof {
        assert(k as int * cs == processed_len(len, kk)) by (nonlinear_arith)
            requires
                cs == len / kk,
                k == kk,
        ;
    }
    let ghost pre = results@;
    sort_guesses(&mut results);
    proof {
        broadcast use vstd::seq_lib::group_to_multiset_ensures;

        let pl = processed_len(len, kk);
        assert(results@.len() == 3 * kk);
        assert forall|j: int| 0 <= j < pl implies score_spec(#[trigger] wv[j], m) <= results@[
            0
        ].score by {
            let q0 = choose|q0: int|
                0 <= q0 < pre.len() && (#[trigger] pre[q0]).score as int >= score_spec(wv[j], m);
            let e = pre[q0];
            assert(pre.contains(e));
            assert(pre.to_multiset().count(e) > 0);
            assert(results@.to_multiset().count(e) > 0);
            assert(results@.contains(e));
            let q1 = choose|q1: int| 0 <= q1 < results@.len() && results@[q1] == e;
            assert(results@[0].score >= results@[q1].score);
        }
        assert forall|q: int|
            0 <= q < results@.len() && (#[trigger] results@[q]).score > 0 implies exists|j: int|
            0 <= j < pl && wv[j] == results@[q].guess@ && score_spec(wv[j], m) == results@[
                q
            ].score by {
            let e = results@[q];
            assert(results@.contains(e));
            assert(results@.to_multiset().count(e) > 0);
            assert(pre.to_multiset().count(e) > 0);
            assert(pre.contains(e));
            let q0 = choose|q0: int| 0 <= q0 < pre.len() && pre[q0] == e;
            assert(pre[q0].score > 0);
        }
        assert forall|q: int|
            0 <= q < results@.len() && (#[trigger] results@[q]).score == 0 implies results@[
            q
        ].guess@ == "NO GUESS"@ by {
            let e = results@[q];
            assert(results@.contains(e));
            assert(results@.to_multiset().count(e) > 0);
            assert(pre.to_multiset().count(e) > 0);
            assert(pre.contains(e));
            let q0 = choose|q0: int| 0 <= q0 < pre.len() && pre[q0] == e;
            assert(pre[q0].score == 0);
        }
        assert(results@.to_multiset() == guesses_multiset(parts));
        assert(parts.len() == thread_count as int);
    }
    results
}

/// How a filtering round left the candidate pool.
#[derive(Clone, Copy, Debug, PartialEq, Eq, Structural)]
pub enum RoundOutcome {
    /// More than one candidate remains: play another round.
    Continue,
    /// Exactly one candidate remains: the answer is found.
    Solved,
    /// No candidate remains: the feedback admits no answer.
    Exhausted,
}

/// Applies one round of feedback to the candidate pool and reports whether
/// the solve should continue, is finished, or has run out of candidates.
pub fn apply_feedback<'a>(pool: &Vec<&'a str>, info: &CurrentInfo) -> (res: (
    Vec<&'a str>,
    RoundOutcome,
))
    requires
        forall|k: int| 0 <= k < pool@.len() ==> word_wf((#[trigger] pool@[k])@),
    ensures
        res.0@ == filtered(pool@, *info),
        res.1 == RoundOutcome::Exhausted <==> filtered(pool@, *info).len() == 0,
        res.1 == RoundOutcome::Solved <==> filtered(pool@, *info).len() == 1,
        res.1 == RoundOutcome::Continue <==> filtered(pool@, *info).len() > 1,
{
    let remaining = possible_remaining_answers(pool, info);
    let outcome = if remaining.len() == 0 {
        RoundOutcome::Exhausted
    } else if remaining.len() == 1 {
        RoundOutcome::Solved
    } else {
        RoundOutcome::Continue
    };
    (remaining, outcome)
}

} // verus!
