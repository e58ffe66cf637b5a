use light_sampler::dialer::{capacity_request, dial_reading, parse_decimal};

#[test]
fn the_dial_asks_for_one_slot_more_than_it_reads() {
    assert_eq!(capacity_request(0, 9), 10);
    assert_eq!(capacity_request(500, 1), 2);
    assert_eq!(capacity_request(7, usize::MAX - 1), usize::MAX);
}

#[test]
fn a_dial_at_zero_keeps_the_pending_request() {
    assert_eq!(capacity_request(0, 0), 0);
    assert_eq!(capacity_request(10, 0), 10);
}

#[test]
fn a_line_of_digits_reads_as_its_number() {
    assert_eq!(dial_reading("0\n"), Some(0));
    assert_eq!(dial_reading("9\n"), Some(9));
    assert_eq!(dial_reading("4095\n"), Some(4095));
    assert_eq!(dial_reading("+17\n"), Some(17));
    assert_eq!(dial_reading("0042\n"), Some(42));
}

#[test]
fn the_last_character_of_a_line_is_dropped_whatever_it_is() {
    assert_eq!(dial_reading("123"), Some(12));
    assert_eq!(dial_reading("12é"), Some(12));
    assert_eq!(dial_reading("7 "), Some(7));
    assert_eq!(dial_reading("7\n\n"), None);
}

#[test]
fn a_line_without_a_number_reads_as_nothing() {
    assert_eq!(dial_reading(""), None);
    assert_eq!(dial_reading("\n"), None);
    assert_eq!(dial_reading("+\n"), None);
    assert_eq!(dial_reading("-5\n"), None);
    assert_eq!(dial_reading(" 5\n"), None);
    assert_eq!(dial_reading("5 \n"), None);
    assert_eq!(dial_reading("1+2\n"), None);
    assert_eq!(dial_reading("++2\n"), None);
    assert_eq!(dial_reading("1_000\n"), None);
    assert_eq!(dial_reading("0x1f\n"), None);
    assert_eq!(dial_reading("12.5\n"), None);
    assert_eq!(dial_reading("１２\n"), None);
}

#[test]
fn a_number_beyond_usize_reads_as_nothing() {
    let largest = usize::MAX.to_string();
    assert_eq!(parse_decimal(&largest), Some(usize::MAX));
    assert_eq!(parse_decimal(&format!("000{}", largest)), Some(usize::MAX));
    let mut beyond = largest.clone();
    let last = beyond.pop().unwrap();
    beyond.push(char::from_digit(last.to_digit(10).unwrap() + 1, 10).unwrap());
    assert_eq!(parse_decimal(&beyond), None);
    assert_eq!(parse_decimal(&format!("{}0", largest)), None);
    assert_eq!(parse_decimal("99999999999999999999999999999999999999999"), None);
    assert_eq!(parse_decimal("99999999999999999999999999999999999999999x"), None);
}

#[test]
fn parse_decimal_agrees_with_the_parsing_of_std() {
    let largest = usize::MAX.to_string();
    let texts = [
        "", "0", "1", "+", "-", "+0", "-0", "+1", "-1", "++1", "+-1", "1+", "007", "+007", " 1",
        "1 ", "1\n", "a", "1a", "a1", "12345678901234567890", "18446744073709551615",
        "18446744073709551616", "4294967295", "4294967296", "๓", "1๓", "½", "1e3", "0.5",
        largest.as_str(),
    ];
    for text in texts {
        assert_eq!(parse_decimal(text), text.parse::<usize>().ok(), "{:?}", text);
    }
}
