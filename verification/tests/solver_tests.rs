use wordle_solver::freq::FrequencySet;
use wordle_solver::solver::{
    apply_feedback, best_guesses, possible_remaining_answers, score, sort_guesses,
    worker_top_guesses, CurrentInfo, Guess, RoundOutcome,
};

// Scores are scaled integers: for a model built from a corpus of n words,
// the scaled score is 5 * n times the floating-point heuristic.
fn heuristic(scaled: u64, corpus_len: u64) -> f64 {
    scaled as f64 / (5.0 * corpus_len as f64)
}

fn build_set(corpus: &Vec<&str>) -> FrequencySet {
    let mut s = FrequencySet::new();
    s.build_set_from_words(corpus);
    s
}

#[test]
fn guess_new_is_placeholder() {
    let g = Guess::new();
    assert_eq!(g.guess, "NO GUESS");
    assert_eq!(g.score, 0);
}

#[test]
fn current_info_new_is_empty() {
    let info = CurrentInfo::new();
    assert!(info.excluded.is_empty());
    assert!(info.somewhere.is_empty());
    assert_eq!(info.exists_at, [None; 5]);
    assert_eq!(info.known, [None; 5]);
}

// For an empty (all-zero-total) model, every word scores zero.
#[test]
fn score_is_zero_for_empty_model() {
    let s = FrequencySet::new();
    for w in ["hello", "world", "aabbc", "zzzzz"] {
        assert_eq!(score(w, &s), 0);
    }
}

#[test]
fn score_is_zero_for_unobserved_letters() {
    let corpus: Vec<&str> = vec!["abcde"];
    let s = build_set(&corpus);
    assert_eq!(score("zzzzz", &s), 0);
}

// End-to-end scoring: corpus ["abcde"], guess "abcde".  Every positional
// count is 1 of a slot total of 1, every aggregate count is 1 of a total
// of 5, so each of the five fresh letters contributes
// 1/1 * 15 + 1/5 * 12 = 17.4, and the whole guess scores 87.0
// (scaled by 5 * 1: 5 * (75 + 12) = 435).
#[test]
fn score_full_match_single_word_corpus() {
    let corpus: Vec<&str> = vec!["abcde"];
    let s = build_set(&corpus);
    let scaled = score("abcde", &s);
    assert_eq!(scaled, 435);
    assert!((heuristic(scaled, 1) - 87.0).abs() < 1e-9);
}

// Duplicate-letter rule: for corpus ["aabbc"] and guess "aabbc", the first
// 'a' and first 'b' carry the full 15/12 weights while the second 'a' and
// second 'b' drop to 6/4.
#[test]
fn score_applies_reduced_weights_to_repeats() {
    let corpus: Vec<&str> = vec!["aabbc"];
    let s = build_set(&corpus);
    // Slot by slot (scaled by 5 * 1):
    //   'a' fresh:  5*1*15 + 2*12 = 99
    //   'a' repeat: 5*1*6  + 2*4  = 38
    //   'b' fresh:  5*1*15 + 2*12 = 99
    //   'b' repeat: 5*1*6  + 2*4  = 38
    //   'c' fresh:  5*1*15 + 1*12 = 87
    assert_eq!(score("aabbc", &s), 99 + 38 + 99 + 38 + 87);
}

#[test]
fn score_repeat_weights_differ_from_fresh() {
    let corpus: Vec<&str> = vec!["aabbc"];
    let s = build_set(&corpus);
    // "aabbc" repeats 'a' and 'b'; "axbyc" hits the same slots 0, 2 and 4
    // with all-fresh letters but its 'x' and 'y' contribute nothing, while
    // the repeated 'a' and 'b' of "aabbc" still earn the reduced 6/4
    // weights.
    let with_repeats = score("aabbc", &s);
    let all_fresh = score("axbyc", &s);
    assert_eq!(all_fresh, 99 + 0 + 99 + 0 + 87);
    assert!(with_repeats > all_fresh);
}

// End-to-end filter scenario: knownAt[0]='a', excluded={'p'}.
#[test]
fn filter_scenario_known_and_excluded() {
    let pool: Vec<&str> = vec!["apple", "angle", "ankle"];
    let mut info = CurrentInfo::new();
    info.known[0] = Some('a');
    info.excluded.push('p');
    let remaining = possible_remaining_answers(&pool, &info);
    assert_eq!(remaining, vec!["angle", "ankle"]);
}

#[test]
fn filter_somewhere_requires_presence() {
    let pool: Vec<&str> = vec!["apple", "angle", "amble"];
    let mut info = CurrentInfo::new();
    info.somewhere.push('g');
    let remaining = possible_remaining_answers(&pool, &info);
    assert_eq!(remaining, vec!["angle"]);
}

#[test]
fn filter_exists_at_rejects_that_slot_only() {
    let pool: Vec<&str> = vec!["angle", "gable"];
    let mut info = CurrentInfo::new();
    // 'g' is present but not at slot 2 (0-indexed).
    info.exists_at[2] = Some('g');
    info.somewhere.push('g');
    let remaining = possible_remaining_answers(&pool, &info);
    assert_eq!(remaining, vec!["gable"]);
}

// Filtering is idempotent: re-filtering a filtered pool changes nothing.
#[test]
fn filter_is_idempotent() {
    let pool: Vec<&str> = vec!["apple", "angle", "ankle", "paper", "slate"];
    let mut info = CurrentInfo::new();
    info.known[0] = Some('a');
    info.excluded.push('p');
    let once = possible_remaining_answers(&pool, &info);
    let twice = possible_remaining_answers(&once, &info);
    assert_eq!(once, twice);
}

#[test]
fn filter_empty_record_keeps_everything() {
    let pool: Vec<&str> = vec!["apple", "angle"];
    let info = CurrentInfo::new();
    assert_eq!(possible_remaining_answers(&pool, &info), pool);
}

#[test]
fn over_constrained_record_empties_pool() {
    let pool: Vec<&str> = vec!["apple", "angle"];
    let mut info = CurrentInfo::new();
    info.excluded.push('a');
    info.somewhere.push('a');
    let remaining = possible_remaining_answers(&pool, &info);
    assert!(remaining.is_empty());
}

#[test]
fn apply_feedback_reports_outcomes() {
    let pool: Vec<&str> = vec!["apple", "angle", "ankle"];

    let info = CurrentInfo::new();
    let (rest, outcome) = apply_feedback(&pool, &info);
    assert_eq!(rest.len(), 3);
    assert_eq!(outcome, RoundOutcome::Continue);

    let mut solved = CurrentInfo::new();
    solved.somewhere.push('p');
    let (rest, outcome) = apply_feedback(&pool, &solved);
    assert_eq!(rest, vec!["apple"]);
    assert_eq!(outcome, RoundOutcome::Solved);

    let mut exhausted = CurrentInfo::new();
    exhausted.excluded.push('a');
    let (rest, outcome) = apply_feedback(&pool, &exhausted);
    assert!(rest.is_empty());
    assert_eq!(outcome, RoundOutcome::Exhausted);
}

#[test]
fn sort_guesses_orders_descending() {
    let mut guesses = vec![
        Guess { guess: "one".to_string(), score: 10 },
        Guess { guess: "two".to_string(), score: 30 },
        Guess { guess: "three".to_string(), score: 20 },
        Guess { guess: "four".to_string(), score: 30 },
    ];
    sort_guesses(&mut guesses);
    let scores: Vec<u64> = guesses.iter().map(|g| g.score).collect();
    assert_eq!(scores, vec![30, 30, 20, 10]);
}

#[test]
fn worker_keeps_first_holder_on_ties() {
    let vocab: Vec<&str> = vec!["abcdz", "abcdy"];
    let answers: Vec<&str> = vec!["abcde"];
    let top = worker_top_guesses(&vocab, &answers, 0, 1);
    assert_eq!(top.len(), 3);
    assert_eq!(top[0].guess, "abcdz");
    assert_eq!(top[1].guess, "abcdy");
    assert_eq!(top[0].score, top[1].score);
    assert_eq!(top[2].guess, "NO GUESS");
    assert_eq!(top[2].score, 0);
}

#[test]
fn worker_zero_scores_never_displace_placeholder() {
    let vocab: Vec<&str> = vec!["zzzzz", "yyyyy"];
    let answers: Vec<&str> = vec!["aaaaa"];
    let top = worker_top_guesses(&vocab, &answers, 0, 1);
    for g in &top {
        assert_eq!(g.guess, "NO GUESS");
        assert_eq!(g.score, 0);
    }
}

// With a single worker the #1 result equals the maximum found by an
// exhaustive sequential scan of the same vocabulary.
#[test]
fn single_worker_matches_exhaustive_scan() {
    let vocab: Vec<&str> = vec![
        "slate", "crane", "aisle", "stale", "least", "angle", "paper", "gable",
    ];
    let answers: Vec<&str> = vec!["slate", "crane", "least", "gable"];
    let ranked = best_guesses(1, &vocab, &answers);
    let model = build_set(&answers);
    let exhaustive_max = vocab.iter().map(|w| score(w, &model)).max().unwrap();
    assert_eq!(ranked[0].score, exhaustive_max);
}

#[test]
fn best_guesses_sorted_with_three_per_worker() {
    let vocab: Vec<&str> = vec!["slate", "crane", "aisle", "stale", "least", "angle"];
    let answers: Vec<&str> = vec!["slate", "crane"];
    let ranked = best_guesses(2, &vocab, &answers);
    assert_eq!(ranked.len(), 6);
    for pair in ranked.windows(2) {
        assert!(pair[0].score >= pair[1].score);
    }
}

// Documented limitation: when one partition holds the four truly
// highest-scoring words, its local top-three cap silently drops the
// fourth.  The merged output must reproduce that, not fix it.
#[test]
fn partition_cap_drops_fourth_best_of_one_window() {
    let answers: Vec<&str> = vec!["aaaaa"];
    // Scaled scores against ["aaaaa"]: 335, 285, 235, 185, 135, 0, 0, 0.
    let vocab: Vec<&str> = vec![
        "aaaaa", "aaaab", "aaabb", "aabbb", "abbbb", "bbbbb", "ccccc", "ddddd",
    ];
    let model = build_set(&answers);
    assert_eq!(score("aabbb", &model), 185);

    let ranked = best_guesses(2, &vocab, &answers);
    assert_eq!(ranked.len(), 6);
    // The four best words all sit in the first window of four; "aabbb" is
    // the global #4 but only three slots per window exist.
    assert!(ranked.iter().all(|g| g.guess != "aabbb"));
    let scores: Vec<u64> = ranked.iter().map(|g| g.score).collect();
    assert_eq!(scores, vec![335, 285, 235, 135, 0, 0]);
}

// Documented limitation: the trailing len % k words are never scanned.
#[test]
fn tail_words_beyond_even_windows_are_dropped() {
    let answers: Vec<&str> = vec!["aaaaa"];
    // With k = 2 and five words, only the first four are processed; the
    // best word of all sits in the dropped tail.
    let vocab: Vec<&str> = vec!["bbbbb", "ccccc", "ddddd", "eeeee", "aaaaa"];
    let ranked = best_guesses(2, &vocab, &answers);
    assert_eq!(ranked.len(), 6);
    assert!(ranked.iter().all(|g| g.guess != "aaaaa"));
}
