use factorize::args::InputError;
use factorize::factor::{Factor, FactorError};
use factorize::text::IntErrorKind;

#[test]
fn message_of_a_prime() {
    assert_eq!(Factor::Prime(97).message(), "Prime: 97");
    assert_eq!(
        Factor::Prime(18_446_744_073_709_551_557).message(),
        "Prime: 18446744073709551557"
    );
}

#[test]
fn message_of_a_composite() {
    assert_eq!(Factor::Composite(vec![2, 2, 3]).message(), "Found: 2 2 3 ");
    assert_eq!(
        Factor::Composite(vec![3, 1_000_000_007]).message(),
        "Found: 3 1000000007 "
    );
}

#[test]
fn message_of_a_domain_error() {
    assert_eq!(
        FactorError::NeitherPrimeNorComposite(0).message(),
        "InvalidNumber: 0 is neither prime nor composite"
    );
    assert_eq!(
        FactorError::NeitherPrimeNorComposite(1).message(),
        "InvalidNumber: 1 is neither prime nor composite"
    );
}

#[test]
fn message_of_a_timeout() {
    assert_eq!(FactorError::Timeout(None).message(), "Timeout: no factors found");
    assert_eq!(
        FactorError::Timeout(Some(vec![2, 3])).message(),
        "Timeout: found so far: 2 3 "
    );
}

#[test]
fn messages_of_input_errors() {
    let usage = "Usage: COMMAND <INTEGER> [-t <SECONDS>]";
    assert_eq!(InputError::Help.message(), usage);
    assert_eq!(InputError::BadInput.message(), usage);
    assert_eq!(
        InputError::InvalidNumber(IntErrorKind::InvalidDigit).message(),
        "InvalidNumber: Only use (0..=9) and comma OR underscore"
    );
    assert_eq!(
        InputError::InvalidNumber(IntErrorKind::PosOverflow).message(),
        format!("InvalidNumber: Too large\nMaxInt: {}", u64::MAX)
    );
    assert_eq!(
        InputError::InvalidNumber(IntErrorKind::Empty).message(),
        "InvalidNumber: Must include numbers (0..=9)"
    );
    assert_eq!(
        InputError::InvalidTimeout(IntErrorKind::InvalidDigit).message(),
        "InvalidTimeout: Only use (0..=9)"
    );
    assert_eq!(
        InputError::InvalidTimeout(IntErrorKind::PosOverflow).message(),
        format!("InvalidTimeout: Too large\nMaxInt: {}", u64::MAX)
    );
    assert_eq!(
        InputError::InvalidTimeout(IntErrorKind::Empty).message(),
        "InvalidTimeout: Remove the -t flag to disable timeout"
    );
    assert_eq!(
        InputError::InvalidTimeout(IntErrorKind::Zero).message(),
        "InvalidTimeout: Timeout cannot be 0; to disable timeout, remove the -t flag"
    );
}

#[test]
fn messages_of_input_errors_that_do_not_occur() {
    let unknown = "ParseFailure: Unknown error";
    assert_eq!(InputError::InvalidNumber(IntErrorKind::Zero).message(), unknown);
    assert_eq!(InputError::InvalidNumber(IntErrorKind::NegOverflow).message(), unknown);
    assert_eq!(InputError::InvalidTimeout(IntErrorKind::NegOverflow).message(), unknown);
}
