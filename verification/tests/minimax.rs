use wordle_minimax::minimax::{sm_word, worst_case};
use wordle_minimax::words::WordBank;

fn bank(words: &[&str]) -> WordBank {
    let raw: Vec<Vec<u8>> = words.iter().map(|w| w.as_bytes().to_vec()).collect();
    WordBank::new(raw).expect("every word must have five letters")
}

#[test]
fn test_worst_case_exact_sizes() {
    let gbank = bank(&["aaaaa", "abbbb"]);
    let sbank = bank(&["abbbb", "acccc", "bbbbb"]);
    let left = vec![0, 1, 2];
    // "aaaaa" leaves {abbbb, acccc} together: worst bucket of size 2.
    assert_eq!(worst_case(0, &left, &gbank, &sbank), 2);
    // "abbbb" separates all three candidates: worst bucket of size 1.
    assert_eq!(worst_case(1, &left, &gbank, &sbank), 1);
}

#[test]
fn test_sm_word_picks_minimal_worst_case() {
    let gbank = bank(&["aaaaa", "abbbb"]);
    let sbank = bank(&["abbbb", "acccc", "bbbbb"]);
    let left = vec![0, 1, 2];
    let g = sm_word(&left, &gbank, &sbank);
    assert_eq!(g, 1);
    // Local minimax optimality on concrete values: no guess in the bank
    // beats the returned one.
    let best = worst_case(g, &left, &gbank, &sbank);
    for h in 0..2 {
        assert!(best <= worst_case(h, &left, &gbank, &sbank));
    }
}

#[test]
fn test_sm_word_tie_breaks_to_first() {
    let gbank = bank(&["abbbb", "abbbb"]);
    let sbank = bank(&["abbbb", "acccc", "bbbbb"]);
    let left = vec![0, 1, 2];
    assert_eq!(sm_word(&left, &gbank, &sbank), 0);
}

#[test]
fn test_sm_word_single_candidate() {
    let gbank = bank(&["aaaaa", "abbbb"]);
    let sbank = bank(&["abbbb", "acccc", "bbbbb"]);
    let left = vec![1];
    // Every guess leaves the lone candidate; the first guess wins the tie.
    assert_eq!(sm_word(&left, &gbank, &sbank), 0);
}
