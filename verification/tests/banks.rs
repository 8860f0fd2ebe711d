use wordle_minimax::words::{bytes_equal, check_banks, WordBank};

fn bank(words: &[&str]) -> WordBank {
    let raw: Vec<Vec<u8>> = words.iter().map(|w| w.as_bytes().to_vec()).collect();
    WordBank::new(raw).expect("every word must have five letters")
}

#[test]
fn test_bank_new_accepts_five_letter_words() {
    let raw = vec![b"crane".to_vec(), b"slate".to_vec()];
    let b = WordBank::new(raw).unwrap();
    assert_eq!(b.len(), 2);
    assert_eq!(b.word(0).as_slice(), b"crane");
    assert_eq!(b.word(1).as_slice(), b"slate");
}

#[test]
fn test_bank_new_rejects_wrong_length() {
    assert!(WordBank::new(vec![b"cranes".to_vec()]).is_none());
    assert!(WordBank::new(vec![b"crane".to_vec(), b"cat".to_vec()]).is_none());
    assert!(WordBank::new(vec![b"".to_vec()]).is_none());
}

#[test]
fn test_bank_new_accepts_empty_bank() {
    let b = WordBank::new(Vec::new()).unwrap();
    assert_eq!(b.len(), 0);
}

#[test]
fn test_bytes_equal() {
    assert!(bytes_equal(&b"crane".to_vec(), &b"crane".to_vec()));
    assert!(!bytes_equal(&b"crane".to_vec(), &b"slate".to_vec()));
    assert!(!bytes_equal(&b"crane".to_vec(), &b"cran".to_vec()));
}

#[test]
fn test_check_banks_good() {
    let gbank = bank(&["crane", "slate", "plumb"]);
    let sbank = bank(&["slate", "crane"]);
    assert!(check_banks(&gbank, &sbank));
}

#[test]
fn test_check_banks_rejects_duplicate_solutions() {
    let gbank = bank(&["crane", "slate"]);
    let sbank = bank(&["crane", "crane"]);
    assert!(!check_banks(&gbank, &sbank));
}

#[test]
fn test_check_banks_rejects_uncovered_solution() {
    let gbank = bank(&["crane"]);
    let sbank = bank(&["crane", "slate"]);
    assert!(!check_banks(&gbank, &sbank));
}

#[test]
fn test_check_banks_rejects_empty_bank() {
    let gbank = bank(&["crane"]);
    let empty = bank(&[]);
    assert!(!check_banks(&gbank, &empty));
    assert!(!check_banks(&empty, &gbank));
}
