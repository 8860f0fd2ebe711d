use wordle_minimax::grading::{solution_compare, Grade, Mark};
use wordle_minimax::words::WordBank;

fn bank(words: &[&str]) -> WordBank {
    let raw: Vec<Vec<u8>> = words.iter().map(|w| w.as_bytes().to_vec()).collect();
    WordBank::new(raw).expect("every word must have five letters")
}

#[test]
fn test_compare() {
    assert!(
        solution_compare(0, 0, &bank(&["mario"]), &bank(&["slane"]))
            == Grade {
                marks: [Mark::Grey, Mark::Yellow, Mark::Grey, Mark::Grey, Mark::Grey,]
            }
    );
    assert!(
        solution_compare(0, 0, &bank(&["earef"]), &bank(&["maree"]))
            == Grade {
                marks: [Mark::Yellow, Mark::Green, Mark::Green, Mark::Green, Mark::Grey,]
            }
    );
}

#[test]
fn test_no_duplicate_overcount() {
    // Guess "speed" against solution "erase": the solution holds two 'e's
    // and one 's', so the guess's two 'e's both turn yellow, its first 's'
    // turns yellow, and nothing more.
    let g = solution_compare(0, 0, &bank(&["speed"]), &bank(&["erase"]));
    assert!(
        g == Grade {
            marks: [Mark::Yellow, Mark::Grey, Mark::Yellow, Mark::Yellow, Mark::Grey,]
        }
    );
    let yellow_or_green_e = g
        .marks
        .iter()
        .zip("speed".as_bytes().iter())
        .filter(|(m, c)| **m != Mark::Grey && **c == b'e')
        .count();
    let e_in_solution = "erase".as_bytes().iter().filter(|c| **c == b'e').count();
    assert!(yellow_or_green_e <= e_in_solution);
}

#[test]
fn test_self_consistency() {
    let b = bank(&["crane", "slate"]);
    for w in 0..2 {
        let g = solution_compare(w, w, &b, &b);
        assert!(
            g == Grade {
                marks: [Mark::Green, Mark::Green, Mark::Green, Mark::Green, Mark::Green,]
            }
        );
    }
}

#[test]
fn test_grading_deterministic() {
    let gb = bank(&["crane"]);
    let sb = bank(&["slate"]);
    let first = solution_compare(0, 0, &gb, &sb);
    let second = solution_compare(0, 0, &gb, &sb);
    assert!(first == second);
}

#[test]
fn test_grade_equality() {
    let all_grey = Grade { marks: [Mark::Grey; 5] };
    let one_yellow = Grade {
        marks: [Mark::Grey, Mark::Yellow, Mark::Grey, Mark::Grey, Mark::Grey],
    };
    assert!(all_grey == Grade { marks: [Mark::Grey; 5] });
    assert!(!(all_grey == one_yellow));
}

#[test]
fn test_default_mark() {
    assert!(Mark::default() == Mark::Grey);
}

#[test]
fn test_crossed_letters() {
    // "abcde" against "edcba": the middle letter matches in place, the
    // other four match out of place.
    let g = solution_compare(0, 0, &bank(&["abcde"]), &bank(&["edcba"]));
    assert!(
        g == Grade {
            marks: [Mark::Yellow, Mark::Yellow, Mark::Green, Mark::Yellow, Mark::Yellow,]
        }
    );
}
