use coinage::{parse_range, NumberError};

#[test]
fn one_number_is_a_range_of_one() {
    assert_eq!(parse_range("100"), Ok((100, 100)));
    assert_eq!(parse_range("0"), Ok((0, 0)));
    assert_eq!(parse_range("007"), Ok((7, 7)));
}

#[test]
fn two_numbers_with_a_hyphen() {
    assert_eq!(parse_range("3-7"), Ok((3, 7)));
    assert_eq!(parse_range("10-200"), Ok((10, 200)));
    assert_eq!(parse_range("7-3"), Ok((7, 3)));
    assert_eq!(parse_range("0-0"), Ok((0, 0)));
}

#[test]
fn a_plus_may_stand_before_a_number() {
    assert_eq!(parse_range("+5"), Ok((5, 5)));
    assert_eq!(parse_range("+1-+2"), Ok((1, 2)));
}

#[test]
fn no_text_is_no_number() {
    assert_eq!(parse_range(""), Err(NumberError::Empty));
    assert_eq!(parse_range("-"), Err(NumberError::Empty));
    assert_eq!(parse_range("5-"), Err(NumberError::Empty));
    assert_eq!(parse_range("-5"), Err(NumberError::Empty));
}

#[test]
fn other_characters_are_no_digits() {
    assert_eq!(parse_range("a"), Err(NumberError::InvalidDigit));
    assert_eq!(parse_range("12x"), Err(NumberError::InvalidDigit));
    assert_eq!(parse_range(" 1"), Err(NumberError::InvalidDigit));
    assert_eq!(parse_range("+"), Err(NumberError::InvalidDigit));
    assert_eq!(parse_range("++1"), Err(NumberError::InvalidDigit));
    assert_eq!(parse_range("1-2-3"), Err(NumberError::InvalidDigit));
    assert_eq!(parse_range("1--"), Err(NumberError::InvalidDigit));
    assert_eq!(parse_range("٣"), Err(NumberError::InvalidDigit));
    assert_eq!(parse_range("1¢"), Err(NumberError::InvalidDigit));
}

#[test]
fn numbers_beyond_the_machine_are_refused() {
    assert_eq!(
        parse_range("99999999999999999999999999999999999999999"),
        Err(NumberError::PosOverflow)
    );
    let most = format!("{}", usize::MAX);
    assert_eq!(parse_range(&most), Ok((usize::MAX, usize::MAX)));
    let beyond = format!("{}0", usize::MAX);
    assert_eq!(parse_range(&beyond), Err(NumberError::PosOverflow));
    let next = format!("{}", usize::MAX as u128 + 1);
    assert_eq!(parse_range(&next), Err(NumberError::PosOverflow));
}

#[test]
fn the_first_error_from_the_left_is_told() {
    assert_eq!(parse_range("x-"), Err(NumberError::InvalidDigit));
    assert_eq!(parse_range("-x"), Err(NumberError::Empty));
    assert_eq!(
        parse_range("99999999999999999999999999999999999999999x"),
        Err(NumberError::PosOverflow)
    );
    assert_eq!(
        parse_range("x99999999999999999999999999999999999999999"),
        Err(NumberError::InvalidDigit)
    );
}

#[test]
fn ranges_agree_with_the_numbers_of_std() {
    for text in ["1", "+1", "12", "", "+", "-", "1a", "a1", "00", "4294967296"] {
        let ours = parse_range(text);
        let std = text.parse::<usize>();
        match (ours, std) {
            (Ok((m, n)), Ok(k)) => {
                assert_eq!(m, k);
                assert_eq!(n, k);
            }
            (Err(_), Err(_)) => {}
            (a, b) => panic!("{:?} against {:?} for {:?}", a, b, text),
        }
    }
}
