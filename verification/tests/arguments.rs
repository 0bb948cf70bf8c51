use factorize::args::{parse, ungroup, InputError};
use factorize::text::{
    characters, is_space, occurs, parse_decimal, parse_nonzero_decimal, remove_all, to_decimal,
    trim_bounds, IntErrorKind,
};

fn command(words: &[&str]) -> Vec<String> {
    words.iter().map(|word| word.to_string()).collect()
}

fn number(text: &str) -> Result<u64, IntErrorKind> {
    let chars: Vec<char> = text.chars().collect();
    parse_decimal(&chars, 0, chars.len())
}

#[test]
fn a_number_alone() {
    assert_eq!(parse(&command(&["factor", "12"])), Ok((12, None)));
    assert_eq!(parse(&command(&["factor", "0"])), Ok((0, None)));
    assert_eq!(
        parse(&command(&["factor", "18446744073709551615"])),
        Ok((u64::MAX, None))
    );
}

#[test]
fn a_number_and_a_timeout() {
    assert_eq!(parse(&command(&["factor", "12", "-t", "5"])), Ok((12, Some(5))));
    assert_eq!(
        parse(&command(&["factor", "1,000", "-t", " 60 "])),
        Ok((1000, Some(60)))
    );
}

#[test]
fn help_comes_first() {
    assert_eq!(parse(&command(&["factor", "-h"])), Err(InputError::Help));
    assert_eq!(parse(&command(&["factor", "--help"])), Err(InputError::Help));
    assert_eq!(parse(&command(&["factor", "x", "--help"])), Err(InputError::Help));
    assert_eq!(
        parse(&command(&["factor", "1", "2", "3", "4", "-h"])),
        Err(InputError::Help)
    );
    assert_eq!(parse(&command(&["-h"])), Err(InputError::Help));
    assert_eq!(parse(&command(&["factor", "12", "-t", "-h"])), Err(InputError::Help));
}

#[test]
fn help_must_be_the_whole_argument() {
    assert_eq!(
        parse(&command(&["factor", "-help"])),
        Err(InputError::InvalidNumber(IntErrorKind::InvalidDigit))
    );
    assert_eq!(
        parse(&command(&["factor", " -h"])),
        Err(InputError::InvalidNumber(IntErrorKind::InvalidDigit))
    );
}

#[test]
fn the_count_of_the_arguments() {
    assert_eq!(parse(&command(&[])), Err(InputError::BadInput));
    assert_eq!(parse(&command(&["factor"])), Err(InputError::BadInput));
    assert_eq!(parse(&command(&["factor", "12", "-t"])), Err(InputError::BadInput));
    assert_eq!(
        parse(&command(&["factor", "12", "-t", "5", "6"])),
        Err(InputError::BadInput)
    );
}

#[test]
fn the_flag_must_be_in_its_place() {
    assert_eq!(
        parse(&command(&["factor", "12", "-x", "5"])),
        Err(InputError::BadInput)
    );
    assert_eq!(
        parse(&command(&["factor", "12", "5", "-t"])),
        Err(InputError::BadInput)
    );
    assert_eq!(
        parse(&command(&["factor", "12", " -t", "5"])),
        Err(InputError::BadInput)
    );
}

#[test]
fn the_number_is_read_before_the_flag() {
    assert_eq!(
        parse(&command(&["factor", "twelve", "-x", "5"])),
        Err(InputError::InvalidNumber(IntErrorKind::InvalidDigit))
    );
}

#[test]
fn grouping_is_removed_from_the_number() {
    assert_eq!(parse(&command(&["factor", "1,000,000"])), Ok((1_000_000, None)));
    assert_eq!(parse(&command(&["factor", "1_000_000"])), Ok((1_000_000, None)));
    assert_eq!(parse(&command(&["factor", ",1,,2,"])), Ok((12, None)));
    assert_eq!(parse(&command(&["factor", " 1,0 "])), Ok((10, None)));
}

#[test]
fn only_one_kind_of_grouping_is_removed() {
    assert_eq!(
        parse(&command(&["factor", "1,000_000"])),
        Err(InputError::InvalidNumber(IntErrorKind::InvalidDigit))
    );
}

#[test]
fn grouping_is_not_removed_from_the_timeout() {
    assert_eq!(
        parse(&command(&["factor", "12", "-t", "1,000"])),
        Err(InputError::InvalidTimeout(IntErrorKind::InvalidDigit))
    );
}

#[test]
fn a_number_of_separators_only_is_empty() {
    assert_eq!(
        parse(&command(&["factor", ",,"])),
        Err(InputError::InvalidNumber(IntErrorKind::Empty))
    );
    assert_eq!(
        parse(&command(&["factor", ""])),
        Err(InputError::InvalidNumber(IntErrorKind::Empty))
    );
    assert_eq!(
        parse(&command(&["factor", "  "])),
        Err(InputError::InvalidNumber(IntErrorKind::Empty))
    );
}

#[test]
fn a_number_that_does_not_fit() {
    assert_eq!(
        parse(&command(&["factor", "18446744073709551616"])),
        Err(InputError::InvalidNumber(IntErrorKind::PosOverflow))
    );
    assert_eq!(
        parse(&command(&["factor", "12", "-t", "99999999999999999999"])),
        Err(InputError::InvalidTimeout(IntErrorKind::PosOverflow))
    );
}

#[test]
fn a_timeout_of_zero_is_refused() {
    assert_eq!(
        parse(&command(&["factor", "12", "-t", "0"])),
        Err(InputError::InvalidTimeout(IntErrorKind::Zero))
    );
    assert_eq!(
        parse(&command(&["factor", "12", "-t", "000"])),
        Err(InputError::InvalidTimeout(IntErrorKind::Zero))
    );
}

#[test]
fn an_empty_timeout() {
    assert_eq!(
        parse(&command(&["factor", "12", "-t", ""])),
        Err(InputError::InvalidTimeout(IntErrorKind::Empty))
    );
}

#[test]
fn decimal_numbers_read_as_the_standard_library_reads_them() {
    let texts = [
        "", "0", "7", "+7", "-7", "+", "-", "++7", "+-7", "7+", "007", "1 2", " 12", "12 ",
        "12a", "a12", "١٢", "18446744073709551615", "18446744073709551616",
        "+18446744073709551615", "000000000000000000000000000000018446744073709551615",
        "99999999999999999999", "99999999999999999999x", "9999999999999999999x",
        "1844674407370955161x", "18446744073709551615x", "184467440737095516150",
        "1.5", "1e3", "0x10", "１２",
    ];
    for text in texts {
        let expected = text.parse::<u64>().map_err(|error| format!("{:?}", error.kind()));
        let got = number(text).map_err(|kind| format!("{:?}", kind));
        assert_eq!(got, expected, "{:?}", text);
    }
}

#[test]
fn nonzero_decimal_numbers_read_as_the_standard_library_reads_them() {
    for text in ["", "0", "00", "+0", "1", "x", "18446744073709551616", "42"] {
        let expected = text
            .parse::<std::num::NonZeroU64>()
            .map(|value| value.get())
            .map_err(|error| format!("{:?}", error.kind()));
        let chars: Vec<char> = text.chars().collect();
        let got = parse_nonzero_decimal(&chars, 0, chars.len())
            .map_err(|kind| format!("{:?}", kind));
        assert_eq!(got, expected, "{:?}", text);
    }
}

#[test]
fn a_part_of_the_characters_is_read() {
    let chars: Vec<char> = "ab123cd".chars().collect();
    assert_eq!(parse_decimal(&chars, 2, 5), Ok(123));
    assert_eq!(parse_decimal(&chars, 2, 2), Err(IntErrorKind::Empty));
    assert_eq!(parse_decimal(&chars, 1, 5), Err(IntErrorKind::InvalidDigit));
}

#[test]
fn white_space_is_what_the_standard_library_takes_for_it() {
    for code in 0..=0x11_0000u32 {
        if let Some(c) = char::from_u32(code) {
            assert_eq!(is_space(c), c.is_whitespace(), "{:x}", code);
        }
    }
}

#[test]
fn trimming_is_what_the_standard_library_does() {
    for text in [
        "", " ", "   ", "a", " a", "a ", "  a b  ", "\t12\n", "\u{3000}7\u{a0}", "1 2", "\r\n",
    ] {
        let chars: Vec<char> = text.chars().collect();
        let (from, to) = trim_bounds(&chars);
        let got: String = chars[from..to].iter().collect();
        assert_eq!(got, text.trim(), "{:?}", text);
    }
}

#[test]
fn characters_of_a_text() {
    assert_eq!(characters(""), Vec::<char>::new());
    assert_eq!(characters("a,b"), vec!['a', ',', 'b']);
    assert_eq!(characters("é１"), vec!['é', '１']);
}

#[test]
fn occurrence_and_removal() {
    let chars = characters("1,2,,3");
    assert!(occurs(&chars, ','));
    assert!(!occurs(&chars, '_'));
    assert_eq!(remove_all(&chars, ','), vec!['1', '2', '3']);
    assert_eq!(remove_all(&chars, '_'), chars);
    assert_eq!(remove_all(&characters(",,"), ','), Vec::<char>::new());
}

#[test]
fn ungrouping() {
    assert_eq!(ungroup("1,000"), characters("1000"));
    assert_eq!(ungroup("1_000"), characters("1000"));
    assert_eq!(ungroup("1,000_000"), characters("1000_000"));
    assert_eq!(ungroup("1000"), characters("1000"));
}

#[test]
fn decimal_digits_of_a_number() {
    assert_eq!(to_decimal(0), "0");
    assert_eq!(to_decimal(7), "7");
    assert_eq!(to_decimal(10), "10");
    assert_eq!(to_decimal(1_000_000_007), "1000000007");
    assert_eq!(to_decimal(u64::MAX), "18446744073709551615");
}

#[test]
fn decimal_digits_read_back() {
    for n in [0u64, 1, 9, 10, 99, 100, 12345, u64::MAX - 1, u64::MAX] {
        assert_eq!(number(&to_decimal(n)), Ok(n));
        assert_eq!(to_decimal(n), n.to_string());
    }
}
