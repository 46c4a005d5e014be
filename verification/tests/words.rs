use wordle::lexicon::{find, is_sorted, place, Place};

fn list(words: &[&str]) -> Vec<String> {
    words.iter().map(|w| w.to_string()).collect()
}

#[test]
fn place_orders_by_bytes() {
    assert_eq!(place("APPLE", "APPLY"), Place::Before);
    assert_eq!(place("APPLY", "APPLE"), Place::After);
    assert_eq!(place("APPLE", "APPLE"), Place::Same);
    assert_eq!(place("APP", "APPLE"), Place::Before);
    assert_eq!(place("APPLE", "APP"), Place::After);
    assert_eq!(place("", ""), Place::Same);
    assert_eq!(place("", "A"), Place::Before);
    assert_eq!(place("Z", "a"), Place::Before);
    assert_eq!(place("z", "é"), Place::Before);
}

#[test]
fn place_agrees_with_the_order_of_strings() {
    let words = ["", "A", "AB", "B", "a", "é", "zebra", "Zebra", "ÉCOLE", "日本"];
    for a in words {
        for b in words {
            let expected = if a < b {
                Place::Before
            } else if a == b {
                Place::Same
            } else {
                Place::After
            };
            assert_eq!(place(a, b), expected);
        }
    }
}

#[test]
fn is_sorted_accepts_sorted_lists() {
    assert!(is_sorted(&list(&[])));
    assert!(is_sorted(&list(&["CRANE"])));
    assert!(is_sorted(&list(&["CRANE", "CRATE", "SLATE"])));
    assert!(is_sorted(&list(&["CRANE", "CRANE", "SLATE"])));
}

#[test]
fn is_sorted_refuses_unsorted_lists() {
    assert!(!is_sorted(&list(&["SLATE", "CRANE"])));
    assert!(!is_sorted(&list(&["CRANE", "SLATE", "CRATE"])));
    assert!(!is_sorted(&list(&["crane", "SLATE"])));
}

#[test]
fn find_locates_every_word_of_a_sorted_list() {
    let words = list(&["ABIDE", "CRANE", "CRATE", "ERASE", "SLATE", "SPEED", "TRACE"]);
    for (i, w) in words.iter().enumerate() {
        assert_eq!(find(&words, w), Some(i));
    }
}

#[test]
fn find_misses_words_that_are_absent() {
    let words = list(&["ABIDE", "CRANE", "CRATE", "ERASE", "SLATE", "SPEED", "TRACE"]);
    for w in ["AAAAA", "CRANK", "ZZZZZ", "", "crane", "SLATES"] {
        assert_eq!(find(&words, w), None);
    }
    assert_eq!(find(&list(&[]), "CRANE"), None);
}
