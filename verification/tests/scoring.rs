use wordle::verdict::{judge, letters_of, score, Guess, Mark};

fn marks(g: &Guess) -> [Mark; 5] {
    [g.letters[0].1, g.letters[1].1, g.letters[2].1, g.letters[3].1, g.letters[4].1]
}

fn letters(g: &Guess) -> String {
    let mut s = String::new();
    for (c, _) in g.letters.iter() {
        s.push(*c);
    }
    s
}

#[test]
fn guess_equal_to_answer_is_all_correct() {
    for word in ["CRANE", "SPEED", "AAAAA", "ERASE", "ÉCOLE"] {
        let g = score(word, word);
        assert_eq!(marks(&g), [Mark::Correct; 5]);
        assert!(g.is_win());
        assert_eq!(letters(&g), word);
    }
}

#[test]
fn guess_without_common_letter_is_all_absent() {
    let g = score("MOULD", "CRANE");
    assert_eq!(marks(&g), [Mark::Absent; 5]);
    assert!(!g.is_win());
    let g = score("ZZZZZ", "CRANE");
    assert_eq!(marks(&g), [Mark::Absent; 5]);
}

#[test]
fn letters_are_kept_in_order() {
    let g = score("SLATE", "CRANE");
    assert_eq!(
        g.letters,
        [
            ('S', Mark::Absent),
            ('L', Mark::Absent),
            ('A', Mark::Correct),
            ('T', Mark::Absent),
            ('E', Mark::Correct),
        ]
    );
}

#[test]
fn speed_against_erase_claims_each_spare_once() {
    let g = score("SPEED", "ERASE");
    assert_eq!(
        marks(&g),
        [Mark::Present, Mark::Absent, Mark::Present, Mark::Present, Mark::Absent]
    );
}

#[test]
fn speed_against_abide_marks_one_e_only() {
    let g = score("SPEED", "ABIDE");
    assert_eq!(
        marks(&g),
        [Mark::Absent, Mark::Absent, Mark::Present, Mark::Absent, Mark::Present]
    );
}

#[test]
fn exact_match_wins_over_an_earlier_duplicate() {
    // The only E of the answer stands at the last place: the last E of the
    // guess is correct there, and the earlier ones find nothing left.
    let g = score("EERIE", "CRANE");
    assert_eq!(
        marks(&g),
        [Mark::Absent, Mark::Absent, Mark::Present, Mark::Absent, Mark::Correct]
    );
}

#[test]
fn duplicate_letters_are_claimed_from_the_left() {
    let g = score("LLAMA", "HELLO");
    assert_eq!(
        marks(&g),
        [Mark::Present, Mark::Present, Mark::Absent, Mark::Absent, Mark::Absent]
    );
    let g = score("ALLOY", "HELLO");
    assert_eq!(
        marks(&g),
        [Mark::Absent, Mark::Present, Mark::Correct, Mark::Present, Mark::Absent]
    );
}

#[test]
fn more_copies_in_guess_than_in_answer() {
    let g = score("AAAAA", "ABACK");
    assert_eq!(
        marks(&g),
        [Mark::Correct, Mark::Absent, Mark::Correct, Mark::Absent, Mark::Absent]
    );
    let g = score("BAAAB", "ABACK");
    assert_eq!(
        marks(&g),
        [Mark::Present, Mark::Present, Mark::Correct, Mark::Absent, Mark::Absent]
    );
}

#[test]
fn answer_of_another_length_is_scored_too() {
    let g = score("CRANE", "");
    assert_eq!(marks(&g), [Mark::Absent; 5]);
    let g = score("CRANE", "CR");
    assert_eq!(
        marks(&g),
        [Mark::Correct, Mark::Correct, Mark::Absent, Mark::Absent, Mark::Absent]
    );
    let g = score("CRANE", "XXXXXEC");
    assert_eq!(
        marks(&g),
        [Mark::Present, Mark::Absent, Mark::Absent, Mark::Absent, Mark::Present]
    );
}

#[test]
fn score_compares_letters_as_they_stand() {
    let g = score("crane", "CRANE");
    assert_eq!(marks(&g), [Mark::Absent; 5]);
}

#[test]
fn judge_compares_without_regard_to_case() {
    for (guess, answer) in [
        ("crane", "crane"),
        ("crane", "CRANE"),
        ("CRANE", "crane"),
        ("CrAnE", "cRaNe"),
        ("école", "ÉCOLE"),
    ] {
        let g = judge(guess, answer).unwrap();
        assert_eq!(marks(&g), [Mark::Correct; 5], "{} against {}", guess, answer);
        assert!(g.is_win());
    }
}

#[test]
fn judge_hands_out_the_letters_in_upper_case() {
    let g = judge("slate", "crane").unwrap();
    assert_eq!(
        g.letters,
        [
            ('S', Mark::Absent),
            ('L', Mark::Absent),
            ('A', Mark::Correct),
            ('T', Mark::Absent),
            ('E', Mark::Correct),
        ]
    );
}

#[test]
fn judge_marks_as_score_does_on_upper_case() {
    for (guess, answer) in [("speed", "erase"), ("Eerie", "cranE"), ("LLAMA", "hello")] {
        let judged = judge(guess, answer).unwrap();
        let scored = score(&guess.to_uppercase(), &answer.to_uppercase());
        assert_eq!(judged, scored);
    }
    let g = judge("speed", "erase").unwrap();
    assert_eq!(
        marks(&g),
        [Mark::Present, Mark::Absent, Mark::Present, Mark::Present, Mark::Absent]
    );
}

#[test]
fn judge_of_a_guess_without_common_letter_is_all_absent() {
    let g = judge("mould", "CRANE").unwrap();
    assert_eq!(marks(&g), [Mark::Absent; 5]);
}

#[test]
fn judge_refuses_a_guess_that_has_not_five_letters_in_upper_case() {
    // The sharp s becomes two letters in upper case.
    assert_eq!(judge("straß", "CRANE"), None);
    assert_eq!(judge("straß", "straß"), None);
    assert_eq!(judge("", "CRANE"), None);
    assert_eq!(judge("CRAN", "CRANE"), None);
    assert_eq!(judge("CRANES", "CRANE"), None);
    // Three letters that make five in upper case.
    assert_eq!("aßß".to_uppercase(), "ASSSS");
    assert_eq!(judge("aßß", "CRASS"), None);
}

#[test]
fn is_win_needs_every_letter_correct() {
    assert!(!score("CRATE", "CRANE").is_win());
    assert!(score("CRANE", "CRANE").is_win());
}

#[test]
fn letters_of_gives_the_chars() {
    assert_eq!(letters_of("héllo"), vec!['h', 'é', 'l', 'l', 'o']);
    assert_eq!(letters_of(""), Vec::<char>::new());
}

#[test]
fn marked_letters_number_the_smaller_count() {
    let words = ["SPEED", "ERASE", "EERIE", "CRANE", "AAAAA", "ABACK", "LLAMA", "HELLO", "MOULD"];
    for guess in words {
        for answer in words {
            let g = score(guess, answer);
            for c in 'A'..='Z' {
                let marked = g.letters.iter().filter(|l| l.0 == c && l.1 != Mark::Absent).count();
                let in_guess = guess.chars().filter(|x| *x == c).count();
                let in_answer = answer.chars().filter(|x| *x == c).count();
                assert_eq!(marked, in_guess.min(in_answer), "{} in {} against {}", c, guess, answer);
            }
            for i in 0..5 {
                let same = guess.chars().nth(i) == answer.chars().nth(i);
                assert_eq!(g.letters[i].1 == Mark::Correct, same);
            }
        }
    }
}
