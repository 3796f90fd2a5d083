use wordle_solver::freq::{FrequencyDistribution, FrequencySet};

#[test]
fn new_distribution_is_empty() {
    let d = FrequencyDistribution::new();
    assert_eq!(d.total(), 0);
    assert_eq!(d.char_count('a'), 0);
    assert_eq!(d.char_count('z'), 0);
}

#[test]
fn increment_char_counts_letters() {
    let mut d = FrequencyDistribution::new();
    d.increment_char('a');
    d.increment_char('a');
    d.increment_char('q');
    assert_eq!(d.char_count('a'), 2);
    assert_eq!(d.char_count('q'), 1);
    assert_eq!(d.char_count('b'), 0);
    assert_eq!(d.total(), 3);
}

#[test]
fn char_count_outside_alphabet_is_zero() {
    let d = FrequencyDistribution::new();
    assert_eq!(d.char_count('!'), 0);
    assert_eq!(d.char_count('A'), 0);
}

#[test]
fn distribution_for_index_in_range() {
    let s = FrequencySet::new();
    for i in 0..5 {
        assert!(s.distribution_for_index(i).is_ok());
    }
}

#[test]
fn distribution_for_index_out_of_range_is_error() {
    let s = FrequencySet::new();
    assert!(s.distribution_for_index(5).is_err());
    assert!(s.distribution_for_index(100).is_err());
}

#[test]
fn build_set_counts_each_slot() {
    let mut s = FrequencySet::new();
    let corpus: Vec<&str> = vec!["abcde", "fghij"];
    s.build_set_from_words(&corpus);
    let d0 = s.distribution_for_index(0).unwrap();
    assert_eq!(d0.char_count('a'), 1);
    assert_eq!(d0.char_count('f'), 1);
    assert_eq!(d0.char_count('b'), 0);
    assert_eq!(d0.total(), 2);
    let d4 = s.distribution_for_index(4).unwrap();
    assert_eq!(d4.char_count('e'), 1);
    assert_eq!(d4.char_count('j'), 1);
    assert_eq!(d4.total(), 2);
}

#[test]
fn build_set_accumulates_over_calls() {
    let mut s = FrequencySet::new();
    let first: Vec<&str> = vec!["abcde"];
    let second: Vec<&str> = vec!["aaaaa"];
    s.build_set_from_words(&first);
    s.build_set_from_words(&second);
    let d0 = s.distribution_for_index(0).unwrap();
    assert_eq!(d0.char_count('a'), 2);
    assert_eq!(d0.total(), 2);
    assert_eq!(s.char_count('a'), 6);
    assert_eq!(s.total(), 10);
}

#[test]
fn aggregate_counts_sum_over_slots() {
    let mut s = FrequencySet::new();
    let corpus: Vec<&str> = vec!["aabbc"];
    s.build_set_from_words(&corpus);
    assert_eq!(s.char_count('a'), 2);
    assert_eq!(s.char_count('b'), 2);
    assert_eq!(s.char_count('c'), 1);
    assert_eq!(s.char_count('z'), 0);
    assert_eq!(s.total(), 5);
}

// For a distribution built from a non-empty corpus, the observed-letter
// frequencies of every slot sum to exactly one.
#[test]
fn positional_frequencies_sum_to_one() {
    let mut s = FrequencySet::new();
    let corpus: Vec<&str> = vec!["abcde", "fghij", "aaaaa"];
    s.build_set_from_words(&corpus);
    for i in 0..5 {
        let d = s.distribution_for_index(i).unwrap();
        let total = d.total();
        assert_eq!(total, 3);
        let mut count_sum: u32 = 0;
        let mut freq_sum: f64 = 0.0;
        for code in b'a'..=b'z' {
            let c = code as char;
            count_sum += d.char_count(c);
            freq_sum += d.char_count(c) as f64 / total as f64;
        }
        assert_eq!(count_sum, total);
        assert!((freq_sum - 1.0).abs() < 1e-12);
    }
}
