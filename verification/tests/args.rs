use prime_sieve::args::{parse_args, parse_limit, ArgError, NumberError, Options};
use std::num::IntErrorKind;

fn line(args: &[&str]) -> Vec<String> {
    args.iter().map(|a| a.to_string()).collect()
}

fn options(print: bool, count: bool, upper_limit: Option<usize>) -> Options {
    Options { print, count, upper_limit }
}

#[test]
fn two_numbers_are_refused() {
    assert_eq!(parse_args(&line(&["5", "7"])), Err(ArgError::DuplicateLimit(1)));
    assert_eq!(parse_args(&line(&["100", "-p", "100"])), Err(ArgError::DuplicateLimit(2)));
}

#[test]
fn print_flag_twice_is_refused() {
    assert_eq!(parse_args(&line(&["-p", "-p"])), Err(ArgError::DuplicateFlag(1)));
    assert_eq!(parse_args(&line(&["-p", "10", "-P"])), Err(ArgError::DuplicateFlag(2)));
    assert_eq!(parse_args(&line(&["-P", "-p", "10"])), Err(ArgError::DuplicateFlag(1)));
}

#[test]
fn count_flag_twice_is_refused() {
    assert_eq!(parse_args(&line(&["-c", "-c"])), Err(ArgError::DuplicateFlag(1)));
    assert_eq!(parse_args(&line(&["-C", "10", "-p", "-c"])), Err(ArgError::DuplicateFlag(3)));
}

#[test]
fn limit_below_two_is_refused() {
    assert_eq!(parse_args(&line(&["1"])), Err(ArgError::BelowMinimum(0)));
    assert_eq!(parse_args(&line(&["0"])), Err(ArgError::BelowMinimum(0)));
    assert_eq!(parse_args(&line(&["-c", "+1"])), Err(ArgError::BelowMinimum(1)));
}

#[test]
fn what_is_no_flag_and_no_number_is_refused() {
    assert_eq!(
        parse_args(&line(&["-x"])),
        Err(ArgError::InvalidNumber(0, NumberError::InvalidDigit))
    );
    assert_eq!(
        parse_args(&line(&["10", ""])),
        Err(ArgError::InvalidNumber(1, NumberError::Empty))
    );
    assert_eq!(
        parse_args(&line(&["-p", "-c", "99999999999999999999999999"])),
        Err(ArgError::InvalidNumber(2, NumberError::Overflow))
    );
    assert_eq!(
        parse_args(&line(&["-pc", "10"])),
        Err(ArgError::InvalidNumber(0, NumberError::InvalidDigit))
    );
    assert_eq!(
        parse_args(&line(&["--p"])),
        Err(ArgError::InvalidNumber(0, NumberError::InvalidDigit))
    );
}

#[test]
fn first_fault_is_the_one_reported() {
    assert_eq!(parse_args(&line(&["1", "-p", "-p"])), Err(ArgError::BelowMinimum(0)));
    assert_eq!(parse_args(&line(&["-p", "-p", "1"])), Err(ArgError::DuplicateFlag(1)));
    // A second number that is itself at fault is reported for that fault.
    assert_eq!(parse_args(&line(&["10", "1"])), Err(ArgError::BelowMinimum(1)));
    assert_eq!(
        parse_args(&line(&["10", "ten"])),
        Err(ArgError::InvalidNumber(1, NumberError::InvalidDigit))
    );
}

#[test]
fn flags_and_limit_in_any_order() {
    assert_eq!(parse_args(&line(&["-p", "-c", "100"])), Ok(options(true, true, Some(100))));
    assert_eq!(parse_args(&line(&["100", "-C", "-P"])), Ok(options(true, true, Some(100))));
    assert_eq!(parse_args(&line(&["-c", "2"])), Ok(options(false, true, Some(2))));
    assert_eq!(parse_args(&line(&["+30", "-P"])), Ok(options(true, false, Some(30))));
    assert_eq!(parse_args(&line(&["0030"])), Ok(options(false, false, Some(30))));
}

#[test]
fn limit_may_be_missing() {
    assert_eq!(parse_args(&line(&[])), Ok(options(false, false, None)));
    assert_eq!(parse_args(&line(&["-p"])), Ok(options(true, false, None)));
    assert_eq!(parse_args(&line(&["-c", "-p"])), Ok(options(true, true, None)));
}

#[test]
fn largest_limit() {
    let text = usize::MAX.to_string();
    assert_eq!(parse_args(&line(&[&text])), Ok(options(false, false, Some(usize::MAX))));
}

#[test]
fn numbers_are_read_in_decimal() {
    assert_eq!(parse_limit("0"), Ok(0));
    assert_eq!(parse_limit("7"), Ok(7));
    assert_eq!(parse_limit("10"), Ok(10));
    assert_eq!(parse_limit("+10"), Ok(10));
    assert_eq!(parse_limit("000123"), Ok(123));
    assert_eq!(parse_limit("1234567890"), Ok(1_234_567_890));
    assert_eq!(parse_limit(&usize::MAX.to_string()), Ok(usize::MAX));
}

#[test]
fn empty_text_is_no_number() {
    assert_eq!(parse_limit(""), Err(NumberError::Empty));
}

#[test]
fn text_with_anything_but_digits_is_no_number() {
    for text in ["+", "-", "-5", "++5", "5+", "1x", "x1", " 1", "1 ", "1_000", "0x10", "1.5", "１２", "١٢"] {
        assert_eq!(parse_limit(text), Err(NumberError::InvalidDigit), "{text:?}");
    }
}

#[test]
fn number_over_the_largest_is_too_large() {
    let max = usize::MAX.to_string();
    let mut over = max.clone();
    let last = over.pop().unwrap();
    over.push(((last as u8) + 1) as char);
    assert_eq!(parse_limit(&over), Err(NumberError::Overflow));
    assert_eq!(parse_limit(&format!("{max}0")), Err(NumberError::Overflow));
    assert_eq!(parse_limit(&format!("+{max}0")), Err(NumberError::Overflow));
    assert_eq!(parse_limit(&format!("0{max}")), Ok(usize::MAX));
}

#[test]
fn what_comes_first_decides_between_too_large_and_no_digit() {
    let max = usize::MAX.to_string();
    assert_eq!(parse_limit(&format!("{max}0x")), Err(NumberError::Overflow));
    assert_eq!(parse_limit(&format!("{max}x0")), Err(NumberError::InvalidDigit));
    assert_eq!(parse_limit(&format!("x{max}0")), Err(NumberError::InvalidDigit));
}

#[test]
fn numbers_are_read_as_the_standard_library_reads_them() {
    let max = usize::MAX.to_string();
    let mut texts: Vec<String> = [
        "", "+", "-", "0", "1", "2", "+2", "-2", "+-2", "00", "007", "12a", "a12", " 12", "12 ",
        "1_2", "１２", "é", "+é", "18446744073709551615", "18446744073709551616",
        "4294967295", "4294967296", "99999999999999999999999", "99999999999999999999999z",
        "z99999999999999999999999", "+000000000000000000000000000000001",
    ]
    .iter()
    .map(|t| t.to_string())
    .collect();
    texts.push(max.clone());
    texts.push(format!("{max}9"));
    texts.push(format!("{max}9!"));
    texts.push(format!("{max}!9"));
    for n in 0..300usize {
        texts.push(n.to_string());
    }
    for text in texts {
        let expected = match text.parse::<usize>() {
            Ok(n) => Ok(n),
            Err(e) => Err(match e.kind() {
                IntErrorKind::Empty => NumberError::Empty,
                IntErrorKind::InvalidDigit => NumberError::InvalidDigit,
                IntErrorKind::PosOverflow => NumberError::Overflow,
                other => panic!("{other:?} for {text:?}"),
            }),
        };
        assert_eq!(parse_limit(&text), expected, "{text:?}");
    }
}
