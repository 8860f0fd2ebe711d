use wordle_minimax::batch::{best_opener, maximum_game_length};
use wordle_minimax::game::{sim_game_with_solution, FixedWordle, START_GUESS_WORD};
use wordle_minimax::words::{check_banks, WordBank};

fn bank(words: &[&str]) -> WordBank {
    let raw: Vec<Vec<u8>> = words.iter().map(|w| w.as_bytes().to_vec()).collect();
    WordBank::new(raw).expect("every word must have five letters")
}

/// A guess bank with 113 filler words (`zzz` plus two counted letters), so
/// that the hardwired opener id names the first solution word appended
/// after them.
fn gbank_with_opener(solutions: &[&str]) -> WordBank {
    let mut raw: Vec<Vec<u8>> = Vec::new();
    for i in 0..START_GUESS_WORD {
        let c3 = b'a' + (i / 26) as u8;
        let c4 = b'a' + (i % 26) as u8;
        raw.push(vec![b'z', b'z', b'z', c3, c4]);
    }
    for w in solutions {
        raw.push(w.as_bytes().to_vec());
    }
    WordBank::new(raw).expect("every word must have five letters")
}

#[test]
fn test_sim_opener_isolates_immediately() {
    let sols = ["aaaaa", "bbbbb"];
    let gbank = gbank_with_opener(&sols);
    let sbank = bank(&sols);
    assert!(check_banks(&gbank, &sbank));
    // The opener is "aaaaa": it grades all green against "aaaaa" and all
    // grey against "bbbbb", isolating either solution on the first turn.
    assert_eq!(sim_game_with_solution(0, &gbank, &sbank), 2);
    assert_eq!(sim_game_with_solution(1, &gbank, &sbank), 2);
}

#[test]
fn test_sim_recorded_baseline_three_solutions() {
    let sols = ["aaaaa", "aaaab", "aaaac"];
    let gbank = gbank_with_opener(&sols);
    let sbank = bank(&sols);
    assert!(check_banks(&gbank, &sbank));
    // Opener "aaaaa" isolates "aaaaa" at once; "aaaab" and "aaaac" stay
    // together, and the minimax turn that follows ("zzzab") separates them.
    assert_eq!(sim_game_with_solution(0, &gbank, &sbank), 2);
    assert_eq!(sim_game_with_solution(1, &gbank, &sbank), 3);
    assert_eq!(sim_game_with_solution(2, &gbank, &sbank), 3);
}

#[test]
fn test_maximum_game_length() {
    let two = ["aaaaa", "bbbbb"];
    let gbank2 = gbank_with_opener(&two);
    let sbank2 = bank(&two);
    assert_eq!(maximum_game_length(&gbank2, &sbank2), 2);

    let three = ["aaaaa", "aaaab", "aaaac"];
    let gbank3 = gbank_with_opener(&three);
    let sbank3 = bank(&three);
    assert_eq!(maximum_game_length(&gbank3, &sbank3), 3);
}

#[test]
fn test_maximum_game_length_deterministic() {
    // The batch reduction is a function of the two banks alone: repeated
    // runs agree no matter how the parallel work was split.
    let sols = ["aaaaa", "aaaab", "aaaac"];
    let gbank = gbank_with_opener(&sols);
    let sbank = bank(&sols);
    let first = maximum_game_length(&gbank, &sbank);
    let second = maximum_game_length(&gbank, &sbank);
    assert_eq!(first, second);
}

#[test]
fn test_best_opener() {
    // Over the full candidate set {aaaaa, aaaab, aaaac}, the first guess
    // whose worst bucket has size 1 is "zzzba" (id 26): its grades tell the
    // three solutions apart, while every earlier filler merges two of them.
    let sols = ["aaaaa", "aaaab", "aaaac"];
    let gbank = gbank_with_opener(&sols);
    let sbank = bank(&sols);
    assert_eq!(best_opener(&gbank, &sbank), 26);
    assert_eq!(gbank.word(26).as_slice(), b"zzzba");
}

#[test]
fn test_update_narrows_and_reports() {
    let sols = ["aaaaa", "bbbbb"];
    let gbank = gbank_with_opener(&sols);
    let sbank = bank(&sols);
    let mut game = FixedWordle::with_state(1, vec![0, 1], &sbank, &gbank, true);
    // One update: the opener "aaaaa" grades all grey against "bbbbb",
    // leaving only candidate 1; the game reports completion.
    let r = game.update();
    assert!(r.is_none());
    assert_eq!(game.left, vec![1]);
    assert!(!game.hard_code_turn);
}

#[test]
fn test_update_keeps_playing_while_ambiguous() {
    let sols = ["aaaaa", "aaaab", "aaaac"];
    let gbank = gbank_with_opener(&sols);
    let sbank = bank(&sols);
    let mut game = FixedWordle::with_state(2, vec![0, 1, 2], &sbank, &gbank, true);
    let r1 = game.update();
    assert_eq!(r1, Some(vec![1, 2]));
    let r2 = game.update();
    assert!(r2.is_none());
    assert_eq!(game.left, vec![2]);
}

#[test]
fn test_guess_uses_opener_once() {
    let sols = ["aaaaa", "bbbbb"];
    let gbank = gbank_with_opener(&sols);
    let sbank = bank(&sols);
    let mut game = FixedWordle::with_state(0, vec![0, 1], &sbank, &gbank, true);
    assert_eq!(game.guess(), START_GUESS_WORD);
    assert!(!game.hard_code_turn);
    // With the opener consumed, the next guess is the minimax selection.
    let g = game.guess();
    assert!(g < gbank.len());
    assert_eq!(game.solution(g), 0);
}
