use wordle_minimax::buckets::bucket;
use wordle_minimax::grading::solution_compare;
use wordle_minimax::words::WordBank;

fn bank(words: &[&str]) -> WordBank {
    let raw: Vec<Vec<u8>> = words.iter().map(|w| w.as_bytes().to_vec()).collect();
    WordBank::new(raw).expect("every word must have five letters")
}

#[test]
fn test_bucket_groups_equal_grades() {
    // Against the guess "aaaaa", the solutions "abbbb" and "acccc" grade
    // alike (one green, rest grey) while "bbbbb" grades all grey.
    let gbank = bank(&["aaaaa"]);
    let sbank = bank(&["abbbb", "acccc", "bbbbb"]);
    let left = vec![0, 1, 2];
    assert_eq!(bucket(0, 0, &left, &gbank, &sbank), vec![0, 1]);
    assert_eq!(bucket(0, 1, &left, &gbank, &sbank), vec![0, 1]);
    assert_eq!(bucket(0, 2, &left, &gbank, &sbank), vec![2]);
}

#[test]
fn test_bucket_subset_and_contains_reference() {
    let gbank = bank(&["aaaaa", "abbbb"]);
    let sbank = bank(&["abbbb", "acccc", "bbbbb"]);
    let left = vec![0, 1, 2];
    for guess in 0..2 {
        for reference in 0..3 {
            let b = bucket(guess, reference, &left, &gbank, &sbank);
            assert!(b.iter().all(|c| left.contains(c)));
            assert!(b.contains(&reference));
        }
    }
}

#[test]
fn test_bucket_partitions_exhaustively_and_disjointly() {
    let gbank = bank(&["aaaaa", "abbbb", "cabed"]);
    let sbank = bank(&["abbbb", "acccc", "bbbbb", "cabed", "decab"]);
    let left = vec![0, 1, 2, 3, 4];
    for guess in 0..3 {
        for c in 0..5usize {
            // Each candidate lies in exactly one grade class: in the bucket
            // of every reference it grades like, and in no other.
            let mut classes = 0;
            let mut seen = Vec::new();
            for reference in 0..5 {
                let b = bucket(guess, reference, &left, &gbank, &sbank);
                if b.contains(&c) {
                    let g1 = solution_compare(guess, reference, &gbank, &sbank);
                    let g2 = solution_compare(guess, c, &gbank, &sbank);
                    assert!(g1 == g2);
                    if !seen.contains(&b) {
                        seen.push(b);
                        classes += 1;
                    }
                }
            }
            assert_eq!(classes, 1);
        }
    }
}

#[test]
fn test_bucket_respects_candidate_subset() {
    let gbank = bank(&["aaaaa"]);
    let sbank = bank(&["abbbb", "acccc", "bbbbb"]);
    let left = vec![1, 2];
    assert_eq!(bucket(0, 1, &left, &gbank, &sbank), vec![1]);
    assert_eq!(bucket(0, 2, &left, &gbank, &sbank), vec![2]);
}

#[test]
fn test_bucket_keeps_candidate_order() {
    let gbank = bank(&["aaaaa"]);
    let sbank = bank(&["abbbb", "acccc", "bbbbb"]);
    let left = vec![2, 1, 0];
    assert_eq!(bucket(0, 0, &left, &gbank, &sbank), vec![1, 0]);
}
