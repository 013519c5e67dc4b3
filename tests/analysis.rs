use shift_cipher::caesar::encrypt;
use shift_cipher::english::reference_frequency;
use shift_cipher::shift::{deduce_key, frequency_analysis, letter_frequency, phi};

const DICKENS: &str = "It was the best of times, it was the worst of times, it was the age of \
wisdom, it was the age of foolishness, it was the epoch of belief, it was the epoch of \
incredulity, it was the season of Light, it was the season of Darkness, it was the spring \
of hope, it was the winter of despair.";

fn index(c: char) -> usize {
    (c as u8 - b'a') as usize
}

#[test]
fn reference_table_lookups() {
    assert_eq!(reference_frequency('e'), Some(130));
    assert_eq!(reference_frequency('a'), Some(80));
    assert_eq!(reference_frequency('z'), Some(2));
    assert_eq!(reference_frequency('E'), None);
    assert_eq!(reference_frequency('1'), None);
}

#[test]
fn profile_counts_letters_case_insensitively() {
    let p = letter_frequency("Hello, World");
    assert_eq!(p.total, 10);
    assert_eq!(p.counts.len(), 26);
    assert_eq!(p.counts[index('l')], 3);
    assert_eq!(p.counts[index('o')], 2);
    assert_eq!(p.counts[index('h')], 1);
    assert_eq!(p.counts[index('w')], 1);
    assert_eq!(p.counts[index('z')], 0);
}

#[test]
fn profile_frequencies_add_up_to_one() {
    let text = "Some Text, with 3 digits & punctuation!";
    let p = letter_frequency(text);
    assert_eq!(p.counts.iter().sum::<usize>(), p.total);
    let sum: f64 = p.counts.iter().map(|&c| c as f64 / p.total as f64).sum();
    assert!((sum - 1.0).abs() < 1e-9);
    for (l, &c) in p.counts.iter().enumerate() {
        let letter = (b'a' + l as u8) as char;
        let occurs = text.chars().any(|ch| ch.to_ascii_lowercase() == letter);
        assert_eq!(c > 0, occurs);
    }
}

#[test]
fn profile_of_text_without_letters_is_empty() {
    let p = letter_frequency("123 !?");
    assert_eq!(p.total, 0);
    assert!(p.counts.iter().all(|&c| c == 0));
    assert_eq!(phi(&p), 0);
}

#[test]
fn phi_is_the_signed_sum_of_differences() {
    assert_eq!(phi(&letter_frequency("hello")), 695);
    assert_eq!(phi(&letter_frequency("Hello, World")), 575);
    assert_eq!(phi(&letter_frequency("zzz")), 998);
}

#[test]
fn analysis_ranks_every_shift() {
    let expected: Vec<(i32, i64)> = vec![
        (0, 695), (7, 725), (3, 755), (11, 775), (23, 790), (4, 815), (19, 815), (10, 820),
        (22, 820), (14, 823), (16, 825), (20, 830), (18, 845), (25, 865), (1, 870), (13, 870),
        (21, 873), (6, 880), (17, 893), (12, 898), (15, 903), (24, 908), (2, 915), (9, 920),
        (8, 928), (5, 948),
    ];
    assert_eq!(frequency_analysis("hello"), expected);
}

#[test]
fn analysis_returns_26_sorted_entries() {
    let ranked = frequency_analysis("Lbh'er tbaan arrq n ovttre obng.");
    assert_eq!(ranked.len(), 26);
    let mut shifts: Vec<i32> = ranked.iter().map(|e| e.0).collect();
    shifts.sort();
    assert_eq!(shifts, (0..26).collect::<Vec<i32>>());
    for w in ranked.windows(2) {
        assert!(w[0].1 < w[1].1 || (w[0].1 == w[1].1 && w[0].0 < w[1].0));
    }
}

#[test]
fn analysis_of_text_without_letters_ties_by_shift() {
    let ranked = frequency_analysis("12 34!");
    let expected: Vec<(i32, i64)> = (0..26).map(|i| (i, 0)).collect();
    assert_eq!(ranked, expected);
}

#[test]
fn analysis_recovers_shift_of_english_paragraph() {
    let ranked = frequency_analysis(&encrypt(DICKENS, 11));
    assert_eq!(ranked[0], (11, 25));
}

#[test]
fn deduce_key_recovers_known_shift() {
    assert_eq!(deduce_key("hello", &encrypt("hello", 7)), Some(7));
}

#[test]
fn deduce_key_rejects_empty_or_mismatched_input() {
    assert_eq!(deduce_key("", "abc"), None);
    assert_eq!(deduce_key("ab", "abc"), None);
    assert_eq!(deduce_key("abc", ""), None);
    assert_eq!(deduce_key("", ""), None);
}

#[test]
fn deduce_key_averages_over_full_length() {
    assert_eq!(deduce_key("a b", "d?e"), Some(2));
    assert_eq!(deduce_key("az", "ba"), Some(14));
    assert_eq!(deduce_key("the car jerked off the monkey", "sgd bzq idqjdc nee sgd lnmjdx"), Some(0));
}

#[test]
fn deduce_key_reduces_negative_average() {
    assert_eq!(deduce_key("z", "a"), Some(1));
    assert_eq!(deduce_key("bbbaaaaaaa", "aaaaaaaaaa"), Some(26));
}

#[test]
fn deduce_key_counts_characters_not_bytes() {
    assert_eq!(deduce_key("é", "a"), Some(0));
}
