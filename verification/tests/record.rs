use wordle::userdata::UserData;

fn entries(data: &UserData) -> Vec<(u8, usize)> {
    data.distribution().clone()
}

#[test]
fn new_record_has_no_wins() {
    let data = UserData::new("./user_data.txt");
    assert_eq!(entries(&data), vec![(1, 0), (2, 0), (3, 0), (4, 0), (5, 0), (6, 0)]);
    assert_eq!(data.path(), "./user_data.txt");
    for attempts in 0..=7u8 {
        assert_eq!(data.wins_in(attempts), 0);
    }
}

#[test]
fn dump_writes_one_line_per_entry() {
    let data = UserData::new("d");
    assert_eq!(data.dump(), b"1:0\n2:0\n3:0\n4:0\n5:0\n6:0\n".to_vec());
}

#[test]
fn load_reads_entries_in_order() {
    let data = UserData::load("p", b"1:0\n2:3\n3:12\n4:7\n5:1\n6:0\n").unwrap();
    assert_eq!(entries(&data), vec![(1, 0), (2, 3), (3, 12), (4, 7), (5, 1), (6, 0)]);
    assert_eq!(data.path(), "p");
    assert_eq!(data.wins_in(3), 12);
}

#[test]
fn load_keeps_the_order_of_the_text() {
    let data = UserData::load("p", b"6:4\n2:1\n5:5\n").unwrap();
    assert_eq!(entries(&data), vec![(6, 4), (2, 1), (5, 5)]);
    assert_eq!(data.wins_in(6), 4);
    assert_eq!(data.wins_in(2), 1);
    assert_eq!(data.wins_in(1), 0);
}

#[test]
fn load_refuses_attempts_that_no_round_can_take() {
    for text in ["0:1\n", "7:3\n", "255:18\n", "1:2\n7:3\n", "7:3\n1:2\n", "000:0\n"] {
        assert!(UserData::load("p", text.as_bytes()).is_none(), "{:?}", text);
    }
    for text in ["1:1\n", "6:3\n", "006:3\n", "+6:3\n"] {
        assert!(UserData::load("p", text.as_bytes()).is_some(), "{:?}", text);
    }
}

#[test]
fn load_refuses_a_second_entry_for_the_same_attempts() {
    for text in ["1:2\n1:3\n", "1:2\n1:2\n", "2:1\n3:0\n02:4\n", "1:0\n2:0\n3:0\n4:0\n5:0\n6:0\n6:0\n"] {
        assert!(UserData::load("p", text.as_bytes()).is_none(), "{:?}", text);
    }
}

#[test]
fn load_of_empty_text_is_an_empty_record() {
    let data = UserData::load("p", b"").unwrap();
    assert_eq!(entries(&data), vec![]);
}

#[test]
fn load_accepts_a_last_line_without_end() {
    let data = UserData::load("p", b"1:2\n3:4").unwrap();
    assert_eq!(entries(&data), vec![(1, 2), (3, 4)]);
}

#[test]
fn load_accepts_carriage_returns_before_line_feeds() {
    let data = UserData::load("p", b"1:2\r\n3:4\r\n").unwrap();
    assert_eq!(entries(&data), vec![(1, 2), (3, 4)]);
}

#[test]
fn load_refuses_a_carriage_return_that_ends_no_line() {
    assert!(UserData::load("p", b"1:2\r").is_none());
    assert!(UserData::load("p", b"1:2\r\r\n").is_none());
    assert!(UserData::load("p", b"1\r:2\n").is_none());
}

#[test]
fn load_passes_over_lines_without_colon() {
    let data = UserData::load("p", b"wins by attempts\n\n1:2\n\r\nnothing\n3:4\n\n").unwrap();
    assert_eq!(entries(&data), vec![(1, 2), (3, 4)]);
}

#[test]
fn load_takes_signs_and_leading_zeros() {
    let data = UserData::load("p", b"+1:+2\n003:0004\n").unwrap();
    assert_eq!(entries(&data), vec![(1, 2), (3, 4)]);
}

#[test]
fn load_refuses_malformed_lines() {
    for text in [
        "1:\n", ":1\n", ":\n", "a:1\n", "1:b\n", "1 :2\n", "1: 2\n", "1:2:3\n", "-1:2\n",
        "1:-2\n", "256:1\n", "1:2\n3:x\n", "x:3\n1:2\n", "1:2 \n", "1;2:3\n",
        "1:99999999999999999999999999\n",
    ] {
        assert!(UserData::load("p", text.as_bytes()).is_none(), "{:?}", text);
    }
}

#[test]
fn load_refuses_what_follows_the_limits() {
    let max = format!("1:{}\n", usize::MAX);
    let data = UserData::load("p", max.as_bytes()).unwrap();
    assert_eq!(entries(&data), vec![(1, usize::MAX)]);
    let above = format!("1:{}0\n", usize::MAX);
    assert!(UserData::load("p", above.as_bytes()).is_none());
}

#[test]
fn dump_then_load_gives_the_record_back() {
    let texts: [&[u8]; 4] = [
        b"1:0\n2:3\n3:12\n4:7\n5:1\n6:0\n",
        b"",
        b"5:4\n2:1\n1:5\n6:0\n3:18446744073709551615\n",
        b"6:1\n",
    ];
    for text in texts {
        let data = UserData::load("somewhere", text).unwrap();
        let dumped = data.dump();
        let again = UserData::load("somewhere", &dumped).unwrap();
        assert_eq!(entries(&again), entries(&data));
        assert_eq!(again.path(), data.path());
        assert_eq!(again.dump(), dumped);
    }
}

#[test]
fn dump_writes_numbers_in_plain_form() {
    let data = UserData::load("p", b"+01:002\r\nnote\n3:4").unwrap();
    assert_eq!(data.dump(), b"1:2\n3:4\n".to_vec());
}

#[test]
fn record_win_counts_in_the_first_entry_for_the_attempts() {
    let mut data = UserData::new("p");
    data.record_win(3);
    data.record_win(3);
    data.record_win(6);
    assert_eq!(entries(&data), vec![(1, 0), (2, 0), (3, 2), (4, 0), (5, 0), (6, 1)]);
    assert_eq!(data.wins_in(3), 2);
    assert_eq!(data.wins_in(6), 1);
    assert_eq!(data.path(), "p");

    let mut some = UserData::load("p", b"4:1\n2:9\n").unwrap();
    some.record_win(2);
    assert_eq!(entries(&some), vec![(4, 1), (2, 10)]);
}

#[test]
fn record_win_adds_a_missing_entry_at_the_end() {
    let mut data = UserData::load("p", b"1:5\n").unwrap();
    data.record_win(4);
    assert_eq!(entries(&data), vec![(1, 5), (4, 1)]);
    data.record_win(4);
    assert_eq!(entries(&data), vec![(1, 5), (4, 2)]);
}

#[test]
fn record_win_stops_at_the_largest_count() {
    let text = format!("3:{}\n", usize::MAX);
    let mut data = UserData::load("p", text.as_bytes()).unwrap();
    data.record_win(3);
    assert_eq!(entries(&data), vec![(3, usize::MAX)]);
    let almost = format!("3:{}\n", usize::MAX - 1);
    let mut data = UserData::load("p", almost.as_bytes()).unwrap();
    data.record_win(3);
    assert_eq!(entries(&data), vec![(3, usize::MAX)]);
}

#[test]
fn after_win_leaves_its_record_alone() {
    let data = UserData::new("p");
    let next = data.after_win(2);
    assert_eq!(entries(&data), vec![(1, 0), (2, 0), (3, 0), (4, 0), (5, 0), (6, 0)]);
    assert_eq!(entries(&next), vec![(1, 0), (2, 1), (3, 0), (4, 0), (5, 0), (6, 0)]);
    assert_eq!(next.path(), "p");
}

#[test]
fn load_or_new_takes_a_valid_text() {
    let (data, loaded) = UserData::load_or_new("p", Some(b"1:2\n3:4\n"));
    assert!(loaded);
    assert_eq!(entries(&data), vec![(1, 2), (3, 4)]);
    assert_eq!(data.path(), "p");
}

#[test]
fn load_or_new_falls_back_to_a_record_without_wins() {
    let (data, loaded) = UserData::load_or_new("p", Some(b"1:2\n7:3\n"));
    assert!(!loaded);
    assert_eq!(entries(&data), vec![(1, 0), (2, 0), (3, 0), (4, 0), (5, 0), (6, 0)]);
    let (data, loaded) = UserData::load_or_new("p", Some(b"1:2\n3:x\n"));
    assert!(!loaded);
    assert_eq!(entries(&data), vec![(1, 0), (2, 0), (3, 0), (4, 0), (5, 0), (6, 0)]);
    assert_eq!(data.path(), "p");
    let (data, loaded) = UserData::load_or_new("q", None);
    assert!(!loaded);
    assert_eq!(entries(&data), vec![(1, 0), (2, 0), (3, 0), (4, 0), (5, 0), (6, 0)]);
    assert_eq!(data.path(), "q");
}
