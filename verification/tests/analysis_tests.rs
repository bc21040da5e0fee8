use std::collections::HashMap;

use xortool::error::XorError;
use xortool::fitness::Fitness;
use xortool::hist::{chars_count_at_offset, count_equals};
use xortool::keylen::{
    calculate_fitnesses, divisor_votes, get_max_fitnessed_key_length, guess_key_length,
    most_voted_divisors, sort_fitnesses, top_fitnesses, LengthFitness,
};
use xortool::score::{percentage_valid, produce_candidates};

#[test]
fn test_count_equals() {
    let text = "Hello World!".as_bytes();
    assert_eq!(count_equals(text, 2), 1)
}

#[test]
fn test_count_equals_large_key() {
    assert_eq!(count_equals("Hi".as_bytes(), 4), 0);
}

#[test]
fn test_count_equals_key_as_long_as_text() {
    assert_eq!(count_equals("Hello World!".as_bytes(), 12), 0);
}

#[test]
fn test_chars_count_at_offset() {
    let text = "Hello World!".as_bytes();
    let mut expected = HashMap::new();
    expected.insert(' ' as u8, 1);
    expected.insert('l' as u8, 2);
    expected.insert('o' as u8, 1);
    expected.insert('!' as u8, 1);
    assert_eq!(chars_count_at_offset(text, 2, 3), expected)
}

#[test]
fn test_histogram_counts_partition_stride() {
    // The counts at one offset sum to the number of stride positions:
    // ceil((12 - 3) / 2) = 5 positions for "Hello World!".
    let text = "Hello World!".as_bytes();
    let counts = chars_count_at_offset(text, 2, 3);
    let total: u64 = counts.values().sum();
    assert_eq!(total, 5);
}

#[test]
fn test_histogram_counts_partition_whole_text() {
    // Summed over every offset, the histograms tally each byte once.
    let text = "Hello World!".as_bytes();
    let mut total: u64 = 0;
    for offset in 0..5 {
        total += chars_count_at_offset(text, 5, offset).values().sum::<u64>();
    }
    assert_eq!(total, text.len() as u64);
}

#[test]
fn test_get_max_fitnessed_key_length() {
    let fitnesses = vec![
        LengthFitness { length: 1, fitness: Fitness { num: 32, den: 10 } },
        LengthFitness { length: 5, fitness: Fitness { num: 183, den: 10 } },
        LengthFitness { length: 7, fitness: Fitness { num: 93, den: 10 } },
    ];
    assert_eq!(get_max_fitnessed_key_length(&fitnesses), 5);
}

#[test]
fn test_get_max_fitnessed_key_length_all_zero() {
    let fitnesses = vec![
        LengthFitness { length: 3, fitness: Fitness { num: 0, den: 10 } },
        LengthFitness { length: 4, fitness: Fitness { num: 0, den: 20 } },
    ];
    assert_eq!(get_max_fitnessed_key_length(&fitnesses), 0);
}

#[test]
fn test_percentage_valid() {
    let charset = vec!['a' as u8, 'b' as u8, 'c' as u8];
    let text = "hela abc";
    assert_eq!(percentage_valid(text.as_bytes(), &charset), 50)
}

#[test]
fn test_percentage_valid_rounds_half_up() {
    // 1 of 8 bytes valid: 12.5 percent rounds to 13.
    let charset = vec![b'z'];
    let text = "zabcdefg";
    assert_eq!(percentage_valid(text.as_bytes(), &charset), 13);
}

#[test]
fn test_guess_key_length_periodic_text() {
    // A uniform plaintext under a two-byte key leaves a strong period of 2.
    let plaintext = vec![b'x'; 20];
    let key = vec![5u8, 200u8];
    let ciphertext: Vec<u8> = plaintext
        .iter()
        .enumerate()
        .map(|(i, b)| b ^ key[i % key.len()])
        .collect();
    assert_eq!(guess_key_length(&ciphertext, 10), Ok(2));
}

#[test]
fn test_guess_key_length_too_short() {
    match guess_key_length("a".as_bytes(), 5) {
        Err(XorError::AnalysisError { msg }) => {
            assert_eq!(msg, "No candidates for key length found! Too small file?")
        }
        other => panic!("expected an analysis error, got {:?}", other.is_ok()),
    }
}

#[test]
fn test_calculate_fitnesses_sorted_by_length() {
    let plaintext = vec![b'x'; 30];
    let key = vec![1u8, 2u8, 3u8];
    let ciphertext: Vec<u8> = plaintext
        .iter()
        .enumerate()
        .map(|(i, b)| b ^ key[i % key.len()])
        .collect();
    let fitnesses = calculate_fitnesses(&ciphertext, 9);
    assert!(!fitnesses.is_empty());
    for w in fitnesses.windows(2) {
        assert!(w[0].length < w[1].length);
    }
    let sorted = sort_fitnesses(&fitnesses);
    let best = get_max_fitnessed_key_length(&sorted);
    assert_eq!(best % 3, 0);
    let top = top_fitnesses(&sorted);
    assert!(top.len() <= 10);
}

#[test]
fn test_divisor_votes() {
    let fitnesses = vec![
        LengthFitness { length: 6, fitness: Fitness { num: 1, den: 1 } },
        LengthFitness { length: 12, fitness: Fitness { num: 1, den: 1 } },
    ];
    let votes = divisor_votes(&fitnesses, 12);
    assert_eq!(votes.len(), 13);
    assert_eq!(votes[3], 2);
    assert_eq!(votes[4], 1);
    assert_eq!(votes[6], 2);
    assert_eq!(votes[12], 1);
    assert_eq!(votes[5], 0);
}

#[test]
fn test_most_voted_divisors() {
    let votes = vec![0u64, 0, 0, 2, 1, 2, 0];
    assert_eq!(most_voted_divisors(&votes), vec![3, 5]);
}

#[test]
fn test_most_voted_divisors_cutoff() {
    // Five numbers tie; only the first three are reported.
    let votes = vec![0u64, 0, 0, 2, 2, 2, 2, 2];
    assert_eq!(most_voted_divisors(&votes), vec![3, 4, 5]);
}

#[test]
fn test_produce_candidates_scores_and_counts() {
    let plaintext = "hela abc".as_bytes();
    let key = vec![7u8];
    let ciphertext: Vec<u8> = plaintext.iter().map(|b| b ^ 7).collect();
    let keys = vec![vec![7u8], vec![9u8]];
    let charset = "abc".as_bytes();
    let (candidates, hits) = produce_candidates(&ciphertext, &keys, charset, &[], 49, false);
    assert_eq!(candidates.len(), 2);
    assert_eq!(candidates[0].key, key);
    assert_eq!(candidates[0].plaintext, plaintext.to_vec());
    assert_eq!(candidates[0].validity, 50);
    assert!(candidates[0].hit);
    assert!(candidates[0].write_output);
    assert_eq!(candidates[1].validity, 13);
    assert!(!candidates[1].hit);
    assert!(candidates[1].write_output);
    assert_eq!(hits, 1);
}

#[test]
fn test_produce_candidates_known_plain_filter() {
    let plaintext = "attack at dawn".as_bytes();
    let ciphertext: Vec<u8> = plaintext.iter().map(|b| b ^ 0x21).collect();
    let keys = vec![vec![0x21u8], vec![0x22u8]];
    let charset = "abcdefghijklmnopqrstuvwxyz ".as_bytes();
    let (candidates, _) =
        produce_candidates(&ciphertext, &keys, charset, "dawn".as_bytes(), 95, false);
    assert_eq!(candidates.len(), 1);
    assert_eq!(candidates[0].key_index, 0);
}

#[test]
fn test_produce_candidates_filter_output() {
    let plaintext = "zzzz".as_bytes();
    let ciphertext: Vec<u8> = plaintext.iter().map(|b| b ^ 1).collect();
    let keys = vec![vec![1u8], vec![3u8]];
    let charset = "z".as_bytes();
    let (candidates, hits) = produce_candidates(&ciphertext, &keys, charset, &[], 95, true);
    assert_eq!(candidates.len(), 2);
    assert!(candidates[0].write_output);
    assert!(!candidates[1].write_output);
    assert_eq!(hits, 1);
}

#[test]
fn test_scoring_same_pair_twice_is_identical() {
    let ciphertext = "some bytes to score".as_bytes();
    let key = vec![0x5au8, 0x11u8];
    let charset = "abcdefghijklmnopqrstuvwxyz ".as_bytes();
    let first = xortool::routine::dexor(ciphertext, &key);
    let second = xortool::routine::dexor(ciphertext, &key);
    assert_eq!(first, second);
    assert_eq!(
        percentage_valid(&first, charset),
        percentage_valid(&second, charset)
    );
}
