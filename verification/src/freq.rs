//! Letter-frequency distributions over the five slots of a word.
//!
//! A [`FrequencyDistribution`] counts how often each lowercase letter was
//! observed at one slot; a [`FrequencySet`] holds one distribution per slot
//! and is built from a corpus of five-letter words.  Frequencies themselves
//! (count divided by total) are left to callers; every contract here speaks
//! in exact counts.

use vstd::prelude::*;
use vstd::string::StrSliceExecFns;

verus! {

/// A letter: one of the 26 lowercase ASCII characters.
pub open spec fn is_letter(c: char) -> bool {
    97 <= c as int <= 122
}

/// Position of a letter in the alphabet, 0 for 'a' through 25 for 'z'.
pub open spec fn letter_index(c: char) -> int {
    c as int - 97
}

/// A well-formed word: exactly five lowercase letters.
pub open spec fn word_wf(w: Seq<char>) -> bool {
    w.len() == 5 && (forall|i: int| 0 <= i < 5 ==> is_letter(#[trigger] w[i]))
}

/// The mathematical model of one distribution: 26 per-letter counts.
pub open spec fn dist_wf(d: Seq<nat>) -> bool {
    d.len() == 26
}

/// The all-zero distribution.
pub open spec fn empty_dist() -> Seq<nat> {
    Seq::new(26, |i: int| 0)
}

/// Count recorded for letter `c`, 0 for anything outside 'a'..='z'.
pub open spec fn dist_count(d: Seq<nat>, c: char) -> nat {
    if dist_wf(d) && is_letter(c) {
        d[letter_index(c)]
    } else {
        0
    }
}

/// The distribution with one more observation of letter `c`.
pub open spec fn inc_dist(d: Seq<nat>, c: char) -> Seq<nat>
    recommends
        dist_wf(d),
        is_letter(c),
{
    d.update(letter_index(c), d[letter_index(c)] + 1)
}

/// Sum of all counts in a distribution: the distribution's total.
pub open spec fn sum_counts(d: Seq<nat>) -> nat
    decreases d.len(),
{
    if d.len() == 0 {
        0
    } else {
        sum_counts(d.drop_last()) + d.last()
    }
}

/// The mathematical model of a slot set: five distributions.
pub open spec fn model_wf(m: Seq<Seq<nat>>) -> bool {
    m.len() == 5 && (forall|i: int| 0 <= i < 5 ==> dist_wf(#[trigger] m[i]))
}

/// Five all-zero distributions.
pub open spec fn empty_model() -> Seq<Seq<nat>> {
    Seq::new(5, |i: int| empty_dist())
}

/// The model after observing one five-letter word, letter `i` at slot `i`.
pub open spec fn add_word(m: Seq<Seq<nat>>, w: Seq<char>) -> Seq<Seq<nat>>
    recommends
        model_wf(m),
        word_wf(w),
{
    Seq::new(5, |i: int| inc_dist(m[i], w[i]))
}

/// The model after observing every word of a corpus, in order.
pub open spec fn add_corpus(m: Seq<Seq<nat>>, corpus: Seq<Seq<char>>) -> Seq<Seq<nat>>
    decreases corpus.len(),
{
    if corpus.len() == 0 {
        m
    } else {
        add_word(add_corpus(m, corpus.drop_last()), corpus.last())
    }
}

/// The model built from a corpus alone.
pub open spec fn built_model(corpus: Seq<Seq<char>>) -> Seq<Seq<nat>> {
    add_corpus(empty_model(), corpus)
}

/// The character sequences of a list of string slices.
pub open spec fn views_of(words: Seq<&str>) -> Seq<Seq<char>> {
    words.map_values(|w: &str| w@)
}

/// Count for letter `c` aggregated over all five slots.
pub open spec fn model_count(m: Seq<Seq<nat>>, c: char) -> nat {
    dist_count(m[0], c) + dist_count(m[1], c) + dist_count(m[2], c) + dist_count(m[3], c)
        + dist_count(m[4], c)
}

/// Total of all five slot distributions together.
pub open spec fn model_total(m: Seq<Seq<nat>>) -> nat {
    sum_counts(m[0]) + sum_counts(m[1]) + sum_counts(m[2]) + sum_counts(m[3]) + sum_counts(m[4])
}

pub proof fn lemma_sum_counts_all_zero(d: Seq<nat>)
    requires
        forall|i: int| 0 <= i < d.len() ==> d[i] == 0,
    ensures
        sum_counts(d) == 0,
    decreases d.len(),
{
    if d.len() > 0 {
        lemma_sum_counts_all_zero(d.drop_last());
    }
}

pub proof fn lemma_sum_counts_zero_implies_each_zero(d: Seq<nat>, i: int)
    requires
        sum_counts(d) == 0,
        0 <= i < d.len(),
    ensures
        d[i] == 0,
    decreases d.len(),
{
    if i < d.len() - 1 {
        lemma_sum_counts_zero_implies_each_zero(d.drop_last(), i);
    }
}

pub proof fn lemma_sum_counts_ge_element(d: Seq<nat>, i: int)
    requires
        0 <= i < d.len(),
    ensures
        d[i] <= sum_counts(d),
    decreases d.len(),
{
    if i < d.len() - 1 {
        lemma_sum_counts_ge_element(d.drop_last(), i);
    }
}

pub proof fn lemma_sum_counts_update(d: Seq<nat>, i: int, v: nat)
    requires
        0 <= i < d.len(),
    ensures
        sum_counts(d.update(i, v)) + d[i] == sum_counts(d) + v,
    decreases d.len(),
{
    let u = d.update(i, v);
    if i == d.len() - 1 {
        assert(u.drop_last() =~= d.drop_last());
    } else {
        assert(u.drop_last() =~= d.drop_last().update(i, v));
        lemma_sum_counts_update(d.drop_last(), i, v);
    }
}

pub proof fn lemma_add_corpus_wf(m: Seq<Seq<nat>>, corpus: Seq<Seq<char>>)
    requires
        model_wf(m),
        forall|k: int| 0 <= k < corpus.len() ==> word_wf(#[trigger] corpus[k]),
    ensures
        model_wf(add_corpus(m, corpus)),
    decreases corpus.len(),
{
    if corpus.len() > 0 {
        lemma_add_corpus_wf(m, corpus.drop_last());
    }
}

pub proof fn lemma_add_corpus_slot_sum(m: Seq<Seq<nat>>, corpus: Seq<Seq<char>>, i: int)
    requires
        model_wf(m),
        forall|k: int| 0 <= k < corpus.len() ==> word_wf(#[trigger] corpus[k]),
        0 <= i < 5,
    ensures
        sum_counts(add_corpus(m, corpus)[i]) == sum_counts(m[i]) + corpus.len(),
    decreases corpus.len(),
{
    if corpus.len() > 0 {
        let prev = add_corpus(m, corpus.drop_last());
        let w = corpus.last();
        lemma_add_corpus_wf(m, corpus.drop_last());
        lemma_add_corpus_slot_sum(m, corpus.drop_last(), i);
        lemma_sum_counts_update(prev[i], letter_index(w[i]), prev[i][letter_index(w[i])] + 1);
    }
}

pub proof fn lemma_add_corpus_take_step(m: Seq<Seq<nat>>, corpus: Seq<Seq<char>>, k: int)
    requires
        0 <= k < corpus.len(),
    ensures
        add_corpus(m, corpus.take(k + 1)) == add_word(add_corpus(m, corpus.take(k)), corpus[k]),
{
    assert(corpus.take(k + 1).drop_last() =~= corpus.take(k));
    assert(corpus.take(k + 1).last() == corpus[k]);
}

/// A fresh model holds no observations: every slot total is zero.
pub proof fn lemma_empty_model_totals()
    ensures
        forall|i: int| 0 <= i < 5 ==> sum_counts(#[trigger] empty_model()[i]) == 0,
{
    lemma_sum_counts_all_zero(empty_dist());
}

/// Law: a model built from a corpus of five-letter words records exactly one
/// observation per word in every slot, so each slot's total equals the corpus
/// size.  For a non-empty corpus that total is nonzero, and the slot's letter
/// counts divided by it — the positional frequencies — sum to exactly one.
pub proof fn lemma_built_model_slot_total(corpus: Seq<Seq<char>>, i: int)
    requires
        forall|k: int| 0 <= k < corpus.len() ==> word_wf(#[trigger] corpus[k]),
        0 <= i < 5,
    ensures
        sum_counts(built_model(corpus)[i]) == corpus.len(),
{
    lemma_sum_counts_all_zero(empty_dist());
    lemma_add_corpus_slot_sum(empty_model(), corpus, i);
}

/// Per-letter observation counts for one slot, with their running total.
pub struct FrequencyDistribution {
    counts: Vec<u32>,
    total: u32,
}

impl View for FrequencyDistribution {
    type V = Seq<nat>;

    closed spec fn view(&self) -> Seq<nat> {
        self.counts@.map_values(|n: u32| n as nat)
    }
}

impl FrequencyDistribution {
    /// One count per letter, and the stored total is the sum of the counts.
    pub closed spec fn wf(&self) -> bool {
        self.counts@.len() == 26 && self.total as nat == sum_counts(self@)
    }

    pub fn new() -> (d: Self)
        ensures
            d.wf(),
            d@ == empty_dist(),
    {
        let mut counts: Vec<u32> = Vec::new();
        while counts.len() < 26
            invariant
                counts@.len() <= 26,
                forall|i: int| 0 <= i < counts@.len() ==> counts@[i] == 0,
            decreases 26 - counts@.len(),
        {
            counts.push(0);
        }
        let d = FrequencyDistribution { counts, total: 0 };
        proof {
            assert(d@ =~= empty_dist());
            lemma_sum_counts_all_zero(d@);
        }
        d
    }

    pub fn char_count(&self, value: char) -> (count: u32)
        requires
            self.wf(),
        ensures
            count as nat == dist_count(self@, value),
    {
        let code = value as u32;
        if 97 <= code && code <= 122 {
            let idx = (code - 97) as usize;
            self.counts[idx]
        } else {
            0
        }
    }

    pub fn increment_char(&mut self, value: char)
        requires
            old(self).wf(),
            is_letter(value),
            sum_counts(old(self)@) < u32::MAX,
        ensures
            final(self).wf(),
            final(self)@ == inc_dist(old(self)@, value),
    {
        let idx = ((value as u32) - 97) as usize;
        proof {
            lemma_sum_counts_ge_element(self@, idx as int);
        }
        let count = self.counts[idx];
        self.counts.set(idx, count + 1);
        self.total = self.total + 1;
        proof {
            assert(self@ =~= inc_dist(old(self)@, value));
            lemma_sum_counts_update(
                old(self)@,
                idx as int,
                (old(self)@[idx as int] + 1) as nat,
            );
        }
    }

    /// The number of observations recorded so far.
    pub fn total(&self) -> (t: u32)
        requires
            self.wf(),
        ensures
            t as nat == sum_counts(self@),
    {
        self.total
    }
}

/// One frequency distribution per word slot.
pub struct FrequencySet {
    distributions: Vec<FrequencyDistribution>,
}

impl View for FrequencySet {
    type V = Seq<Seq<nat>>;

    closed spec fn view(&self) -> Seq<Seq<nat>> {
        self.distributions@.map_values(|d: FrequencyDistribution| d@)
    }
}

impl FrequencySet {
    /// Exactly five slots, each holding a well-formed distribution.
    pub closed spec fn wf(&self) -> bool {
        self.distributions@.len() == 5 && (forall|i: int|
            0 <= i < 5 ==> (#[trigger] self.distributions@[i]).wf())
    }

    pub fn new() -> (s: Self)
        ensures
            s.wf(),
            s@ == empty_model(),
    {
        let mut distributions: Vec<FrequencyDistribution> = Vec::new();
        distributions.push(FrequencyDistribution::new());
        distributions.push(FrequencyDistribution::new());
        distributions.push(FrequencyDistribution::new());
        distributions.push(FrequencyDistribution::new());
        distributions.push(FrequencyDistribution::new());
        let s = FrequencySet { distributions };
        proof {
            assert(s@ =~= empty_model());
        }
        s
    }

    /// The slot distribution at `index`, or an error for an index past the
    /// last slot.
    pub fn distribution_for_index(&self, index: usize) -> (r: Result<
        &FrequencyDistribution,
        &'static str,
    >)
        requires
            self.wf(),
        ensures
            match r {
                Ok(d) => index < 5 && d.wf() && d@ == self@[index as int],
                Err(_) => index >= 5,
            },
    {
        if index >= self.distributions.len() {
            return Err("Error. Asked for distribution that is out of range");
        }
        Ok(&self.distributions[index])
    }

    /// Records every word of `words`: slot `i` observes the word's letter `i`.
    pub fn build_set_from_words(&mut self, words: &Vec<&str>)
        requires
            old(self).wf(),
            forall|k: int| 0 <= k < words@.len() ==> word_wf((#[trigger] words@[k])@),
            forall|i: int|
                0 <= i < 5 ==> sum_counts(#[trigger] old(self)@[i]) + words@.len() <= u32::MAX,
        ensures
            final(self).wf(),
            final(self)@ == add_corpus(old(self)@, views_of(words@)),
    {
        let ghost m0 = self@;
        let ghost wv = views_of(words@);
        proof {
            assert forall|i: int| 0 <= i < 5 implies dist_wf(#[trigger] m0[i]) by {
                assert(self.distributions@[i].wf());
                assert(m0[i] == self.distributions@[i]@);
            }
        }
        let n = words.len();
        let mut wi: usize = 0;
        while wi < n
            invariant
                wi <= n,
                model_wf(m0),
                n == words@.len(),
                wv == views_of(words@),
                forall|k: int| 0 <= k < words@.len() ==> word_wf((#[trigger] words@[k])@),
                forall|i: int| 0 <= i < 5 ==> sum_counts(#[trigger] m0[i]) + n <= u32::MAX,
                self.wf(),
                self@ == add_corpus(m0, wv.take(wi as int)),
            decreases n - wi,
        {
            let ghost mcur = self@;
            let word = words[wi];
            proof {
                assert(wv[wi as int] == word@);
                assert(forall|k: int| 0 <= k < wv.len() ==> word_wf(#[trigger] wv[k]));
                assert(wv.take(wi as int) =~= wv.subrange(0, wi as int));
                assert(forall|k: int|
                    0 <= k < wv.take(wi as int).len() ==> word_wf(
                        #[trigger] wv.take(wi as int)[k],
                    ));
                assert(model_wf(m0));
                assert forall|i: int| 0 <= i < 5 implies sum_counts(#[trigger] self@[i])
                    < u32::MAX by {
                    lemma_add_corpus_slot_sum(m0, wv.take(wi as int), i);
                }
                lemma_add_corpus_wf(m0, wv.take(wi as int));
            }
            let mut j: usize = 0;
            while j < 5
                invariant
                    j <= 5,
                    word_wf(word@),
                    self.wf(),
                    self@.len() == 5,
                    mcur.len() == 5,
                    forall|i: int| 0 <= i < 5 ==> dist_wf(#[trigger] mcur[i]),
                    forall|i: int| 0 <= i < 5 ==> sum_counts(#[trigger] mcur[i]) < u32::MAX,
                    forall|i: int| 0 <= i < j ==> self@[i] == inc_dist(mcur[i], word@[i]),
                    forall|i: int| j <= i < 5 ==> self@[i] == #[trigger] mcur[i],
                decreases 5 - j,
            {
                let ghost before = self@;
                let c = word.get_char(j);
                proof {
                    assert(self.distributions@[j as int]@ == self@[j as int]);
                    assert(self@[j as int] == mcur[j as int]);
                }
                self.distributions[j].increment_char(c);
                proof {
                    assert(self@[j as int] == inc_dist(before[j as int], word@[j as int]));
                    assert forall|i: int| 0 <= i < j as int + 1 implies self@[i] == inc_dist(
                        mcur[i],
                        word@[i],
                    ) by {
                        if i < j as int {
                            assert(self@[i] == before[i]);
                            assert(before[i] == inc_dist(mcur[i], word@[i]));
                        }
                    }
                    assert forall|i: int| j as int + 1 <= i < 5 implies self@[i] == #[trigger] mcur[i] by {
                        assert(self@[i] == before[i]);
                    }
                }
                j = j + 1;
            }
            proof {
                assert(self@ =~= add_word(mcur, word@));
                lemma_add_corpus_take_step(m0, wv, wi as int);
            }
            wi = wi + 1;
        }
        proof {
            assert(wv.take(n as int) =~= wv);
        }
    }

    /// Count for `value` aggregated over all five slots.
    pub fn char_count(&self, value: char) -> (count: u64)
        requires
            self.wf(),
        ensures
            count as nat == model_count(self@, value),
            count as nat <= model_total(self@),
            count <= 5 * (u32::MAX as u64),
    {
        let c0 = self.distributions[0].char_count(value);
        let c1 = self.distributions[1].char_count(value);
        let c2 = self.distributions[2].char_count(value);
        let c3 = self.distributions[3].char_count(value);
        let c4 = self.distributions[4].char_count(value);
        proof {
            lemma_dist_count_le_sum(self@[0], value);
            lemma_dist_count_le_sum(self@[1], value);
            lemma_dist_count_le_sum(self@[2], value);
            lemma_dist_count_le_sum(self@[3], value);
            lemma_dist_count_le_sum(self@[4], value);
        }
        c0 as u64 + c1 as u64 + c2 as u64 + c3 as u64 + c4 as u64
    }

    /// Total of all five slot distributions together.
    pub fn total(&self) -> (t: u64)
        requires
            self.wf(),
        ensures
            t as nat == model_total(self@),
    {
        let t0 = self.distributions[0].total();
        let t1 = self.distributions[1].total();
        let t2 = self.distributions[2].total();
        let t3 = self.distributions[3].total();
        let t4 = self.distributions[4].total();
        t0 as u64 + t1 as u64 + t2 as u64 + t3 as u64 + t4 as u64
    }
}

pub proof fn lemma_dist_count_le_sum(d: Seq<nat>, c: char)
    ensures
        dist_count(d, c) <= sum_counts(d),
{
    if dist_wf(d) && is_letter(c) {
        lemma_sum_counts_ge_element(d, letter_index(c));
    }
}

} // verus!
