use wordle::decimal::{read_number, write_number};

fn read(text: &str, max: usize) -> Option<usize> {
    read_number(text.as_bytes(), 0, text.len(), max)
}

fn written(n: usize) -> String {
    let mut out = Vec::new();
    write_number(&mut out, n);
    String::from_utf8(out).unwrap()
}

#[test]
fn read_number_takes_digits() {
    assert_eq!(read("0", 255), Some(0));
    assert_eq!(read("7", 255), Some(7));
    assert_eq!(read("42", 255), Some(42));
    assert_eq!(read("255", 255), Some(255));
    assert_eq!(read("007", 255), Some(7));
    assert_eq!(read("0000000000000000000000000000001", 255), Some(1));
}

#[test]
fn read_number_takes_a_plus_sign() {
    assert_eq!(read("+5", 255), Some(5));
    assert_eq!(read("+", 255), None);
    assert_eq!(read("++5", 255), None);
    assert_eq!(read("5+", 255), None);
}

#[test]
fn read_number_refuses_what_is_no_number() {
    assert_eq!(read("", 255), None);
    assert_eq!(read("-5", 255), None);
    assert_eq!(read("12a", 255), None);
    assert_eq!(read(" 12", 255), None);
    assert_eq!(read("12 ", 255), None);
    assert_eq!(read("1_000", usize::MAX), None);
    assert_eq!(read("/", 255), None);
    assert_eq!(read(":", 255), None);
}

#[test]
fn read_number_refuses_what_is_above_the_limit() {
    assert_eq!(read("256", 255), None);
    assert_eq!(read("1000", 255), None);
    assert_eq!(read("9", 8), None);
    assert_eq!(read("8", 8), Some(8));
    assert_eq!(read("10", 0), None);
    assert_eq!(read("0", 0), Some(0));
    let max = usize::MAX.to_string();
    assert_eq!(read(&max, usize::MAX), Some(usize::MAX));
    let mut above = max.clone();
    above.push('0');
    assert_eq!(read(&above, usize::MAX), None);
    assert_eq!(read("99999999999999999999999999", usize::MAX), None);
}

#[test]
fn read_number_agrees_with_the_standard_parser() {
    for text in ["0", "+0", "255", "256", "", "+", "-0", "00255", "2 5", "25\r", "٣"] {
        assert_eq!(read(text, 255), text.parse::<u8>().ok().map(|n| n as usize));
        assert_eq!(read(text, usize::MAX), text.parse::<usize>().ok());
    }
}

#[test]
fn read_number_reads_a_part_of_the_text() {
    let text = b"ab12:345\n";
    assert_eq!(read_number(text, 2, 4, 255), Some(12));
    assert_eq!(read_number(text, 5, 8, usize::MAX), Some(345));
    assert_eq!(read_number(text, 5, 8, 255), None);
    assert_eq!(read_number(text, 4, 4, 255), None);
    assert_eq!(read_number(text, 0, 4, 255), None);
}

#[test]
fn write_number_writes_digits_without_leading_zeros() {
    assert_eq!(written(0), "0");
    assert_eq!(written(9), "9");
    assert_eq!(written(10), "10");
    assert_eq!(written(255), "255");
    assert_eq!(written(1000), "1000");
    assert_eq!(written(usize::MAX), usize::MAX.to_string());
}

#[test]
fn write_number_appends() {
    let mut out = b"x=".to_vec();
    write_number(&mut out, 60);
    write_number(&mut out, 5);
    assert_eq!(out, b"x=605".to_vec());
}

#[test]
fn written_numbers_are_read_back() {
    for n in [0usize, 1, 9, 10, 99, 100, 255, 256, 65535, usize::MAX] {
        assert_eq!(read(&written(n), usize::MAX), Some(n));
    }
}
