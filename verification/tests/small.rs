use transducer::number::{
    checked_double_number, double_parsed, factorial, guess, test_try, NumberError,
};
use transducer::text::{extension, extension_explicit, find};
use transducer::vm::{run_vm_dynamic, Captures, Inst};

#[test]
fn factorial_values() {
    assert_eq!(factorial(0), 1);
    assert_eq!(factorial(1), 1);
    assert_eq!(factorial(5), 120);
    assert_eq!(factorial(20), 2432902008176640000);
}

#[test]
fn guess_hits_five() {
    assert!(guess(5));
    assert!(!guess(1));
    assert!(!guess(10));
}

#[test]
fn find_gives_byte_offsets() {
    assert_eq!(find("foobar.rs", '.'), Some(6));
    assert_eq!(find("foobar", '.'), None);
    assert_eq!(find("τροφή.x", '.'), Some(10));
    assert_eq!(find("", 'a'), None);
    assert_eq!(find("a.b.c", '.'), Some(1));
}

#[test]
fn extension_follows_first_dot() {
    assert_eq!(extension("foobar.csv").unwrap_or("rs"), "csv");
    assert_eq!(extension("foobar").unwrap_or("rs"), "rs");
    assert_eq!(extension_explicit("a.tar.gz"), Some("tar.gz"));
    assert_eq!(extension_explicit("еда."), Some(""));
    assert_eq!(extension_explicit("none"), None);
}

#[test]
fn double_number_reads_and_doubles() {
    assert_eq!(checked_double_number("10"), Some(Ok(20)));
    assert_eq!(checked_double_number("-7"), Some(Ok(-14)));
    assert_eq!(checked_double_number(""), Some(Err(NumberError::Empty)));
    assert_eq!(checked_double_number("x1"), Some(Err(NumberError::InvalidDigit)));
    assert_eq!(checked_double_number("99999999999"), Some(Err(NumberError::PosOverflow)));
    assert_eq!(checked_double_number("-99999999999"), Some(Err(NumberError::NegOverflow)));
    assert_eq!(checked_double_number("2000000000"), None);
    assert_eq!(checked_double_number("1073741823"), Some(Ok(2147483646)));
    assert_eq!(double_parsed(Ok(21)), Ok(42));
    assert_eq!(double_parsed(Err(NumberError::Empty)), Err(NumberError::Empty));
}

#[test]
fn test_try_leaves_at_first_error() {
    assert_eq!(test_try(), Err("error!"));
}

#[test]
fn run_vm_dynamic_captures_nothing() {
    assert_eq!(run_vm_dynamic(&[Inst::OneChar, Inst::Match], "abc"), Captures);
}
