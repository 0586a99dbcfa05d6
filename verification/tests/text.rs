use fondo::text::{parse_number, split, NumberError};

#[test]
fn parse_number_reads_decimal_digits() {
    assert_eq!(parse_number(b"0", 255), Ok(0));
    assert_eq!(parse_number(b"7", 255), Ok(7));
    assert_eq!(parse_number(b"12", 255), Ok(12));
    assert_eq!(parse_number(b"255", 255), Ok(255));
    assert_eq!(parse_number(b"500", usize::MAX), Ok(500));
    assert_eq!(parse_number(b"1234567890", usize::MAX), Ok(1_234_567_890));
}

#[test]
fn parse_number_takes_a_plus_and_leading_zeros() {
    assert_eq!(parse_number(b"+12", 255), Ok(12));
    assert_eq!(parse_number(b"007", 255), Ok(7));
    assert_eq!(parse_number(b"+000", 255), Ok(0));
    assert_eq!(parse_number(b"0000000000000000000000000000000255", 255), Ok(255));
}

#[test]
fn parse_number_rejects_empty_text() {
    assert_eq!(parse_number(b"", 255), Err(NumberError::Empty));
}

#[test]
fn parse_number_rejects_what_is_no_digit() {
    assert_eq!(parse_number(b"+", 255), Err(NumberError::InvalidDigit));
    assert_eq!(parse_number(b"-", 255), Err(NumberError::InvalidDigit));
    assert_eq!(parse_number(b"-1", 255), Err(NumberError::InvalidDigit));
    assert_eq!(parse_number(b"++1", 255), Err(NumberError::InvalidDigit));
    assert_eq!(parse_number(b"1+", 255), Err(NumberError::InvalidDigit));
    assert_eq!(parse_number(b" 1", 255), Err(NumberError::InvalidDigit));
    assert_eq!(parse_number(b"1 ", 255), Err(NumberError::InvalidDigit));
    assert_eq!(parse_number(b"1_0", 255), Err(NumberError::InvalidDigit));
    assert_eq!(parse_number(b"1.5", 255), Err(NumberError::InvalidDigit));
    assert_eq!(parse_number(b"12a", 255), Err(NumberError::InvalidDigit));
    assert_eq!(parse_number(b"/", 255), Err(NumberError::InvalidDigit));
    assert_eq!(parse_number(b":", 255), Err(NumberError::InvalidDigit));
    assert_eq!(parse_number("\u{663}".as_bytes(), 255), Err(NumberError::InvalidDigit));
    assert_eq!(parse_number(b"999999x", 255), Err(NumberError::InvalidDigit));
}

#[test]
fn parse_number_rejects_what_is_above_the_limit() {
    assert_eq!(parse_number(b"256", 255), Err(NumberError::TooLarge));
    assert_eq!(parse_number(b"1000", 255), Err(NumberError::TooLarge));
    assert_eq!(parse_number(b"6", 5), Err(NumberError::TooLarge));
    assert_eq!(parse_number(b"1", 0), Err(NumberError::TooLarge));
    assert_eq!(parse_number(b"0", 0), Ok(0));
    assert_eq!(
        parse_number(b"99999999999999999999999999999999999999", usize::MAX),
        Err(NumberError::TooLarge)
    );
}

#[test]
fn parse_number_at_the_largest_number() {
    let largest = format!("{}", usize::MAX);
    assert_eq!(parse_number(largest.as_bytes(), usize::MAX), Ok(usize::MAX));
    let beyond = format!("{}", usize::MAX as u128 + 1);
    assert_eq!(parse_number(beyond.as_bytes(), usize::MAX), Err(NumberError::TooLarge));
}

#[test]
fn parse_number_agrees_with_std() {
    for text in ["0", "9", "+9", "09", "255", "256", "", "+", "-", "-0", "a", "1a", "18446744073709551615", "18446744073709551616"] {
        assert_eq!(parse_number(text.as_bytes(), 255).ok(), text.parse::<u8>().ok().map(|n| n as usize));
        assert_eq!(parse_number(text.as_bytes(), usize::MAX).ok(), text.parse::<usize>().ok());
    }
}

#[test]
fn split_parts_at_each_separator() {
    assert_eq!(split(b"1,2", b','), vec![b"1".to_vec(), b"2".to_vec()]);
    assert_eq!(split(b"1,2:3,4", b':'), vec![b"1,2".to_vec(), b"3,4".to_vec()]);
    assert_eq!(split(b"500x400", b'x'), vec![b"500".to_vec(), b"400".to_vec()]);
    assert_eq!(split(b"abc", b','), vec![b"abc".to_vec()]);
}

#[test]
fn split_keeps_empty_items() {
    assert_eq!(split(b"", b','), vec![Vec::<u8>::new()]);
    assert_eq!(split(b",", b','), vec![Vec::<u8>::new(), Vec::new()]);
    assert_eq!(split(b"a,", b','), vec![b"a".to_vec(), Vec::new()]);
    assert_eq!(split(b",a", b','), vec![Vec::new(), b"a".to_vec()]);
    assert_eq!(split(b"a,,b", b','), vec![b"a".to_vec(), Vec::new(), b"b".to_vec()]);
}

#[test]
fn split_agrees_with_std() {
    for text in ["", ":", "a", "a:b", ":a:", "a::b:", "1,2:3,4:5,6"] {
        let expected: Vec<Vec<u8>> = text.split(':').map(|s| s.as_bytes().to_vec()).collect();
        assert_eq!(split(text.as_bytes(), b':'), expected);
    }
}
