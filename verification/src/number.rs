//! Small exact computations on integers, and numbers read from text.

use std::num::IntErrorKind;
use vstd::prelude::*;

verus! {

/// The product of the integers from 1 to `n`.
pub open spec fn factorial_of(n: nat) -> nat
    decreases n,
{
    if n == 0 {
        1
    } else {
        n * factorial_of((n - 1) as nat)
    }
}

/// The largest argument whose factorial fits in 64 bits.
pub const MAX_FACTORIAL_ARG: u64 = 20;

/// The factorial of 20, the largest that fits in 64 bits.
pub proof fn lemma_factorial_of_20()
    ensures
        factorial_of(20) == 2432902008176640000,
{
    assert(factorial_of(0) == 1);
    assert(factorial_of(1) == 1 * factorial_of(0));
    assert(factorial_of(2) == 2 * factorial_of(1));
    assert(factorial_of(3) == 3 * factorial_of(2));
    assert(factorial_of(4) == 4 * factorial_of(3));
    assert(factorial_of(5) == 5 * factorial_of(4));
    assert(factorial_of(6) == 6 * factorial_of(5));
    assert(factorial_of(7) == 7 * factorial_of(6));
    assert(factorial_of(8) == 8 * factorial_of(7));
    assert(factorial_of(9) == 9 * factorial_of(8));
    assert(factorial_of(10) == 10 * factorial_of(9));
    assert(factorial_of(11) == 11 * factorial_of(10));
    assert(factorial_of(12) == 12 * factorial_of(11));
    assert(factorial_of(13) == 13 * factorial_of(12));
    assert(factorial_of(14) == 14 * factorial_of(13));
    assert(factorial_of(15) == 15 * factorial_of(14));
    assert(factorial_of(16) == 16 * factorial_of(15));
    assert(factorial_of(17) == 17 * factorial_of(16));
    assert(factorial_of(18) == 18 * factorial_of(17));
    assert(factorial_of(19) == 19 * factorial_of(18));
    assert(factorial_of(20) == 20 * factorial_of(19));
}

/// Factorials are positive and grow with their argument, so up to 20 they
/// fit in 64 bits.
pub proof fn lemma_factorial_bound(n: nat)
    requires
        n <= 20,
    ensures
        1 <= factorial_of(n) <= 2432902008176640000,
    decreases 20 - n,
{
    if n == 20 {
        lemma_factorial_of_20();
    } else {
        lemma_factorial_bound(n + 1);
        let f = factorial_of(n);
        assert(factorial_of(n + 1) == (n + 1) * f);
        assert(f >= 1 && f <= (n + 1) * f) by (nonlinear_arith)
            requires
                (n + 1) * f >= 1,
                f >= 0,
                n >= 0,
        ;
    }
}

/// Computes `n!`.
///
/// The argument is bounded so that the result fits in 64 bits.
pub fn factorial(n: u64) -> (r: u64)
    requires
        n <= MAX_FACTORIAL_ARG,
    ensures
        r == factorial_of(n as nat),
{
    let mut acc: u64 = 1;
    let mut i: u64 = 0;
    while i < n
        invariant
            i <= n <= 20,
            acc == factorial_of(i as nat),
        decreases n - i,
    {
        i += 1;
        proof {
            lemma_factorial_bound(i as nat);
            assert(factorial_of(i as nat) == i * factorial_of((i - 1) as nat));
            assert(acc * i == i * acc) by (nonlinear_arith);
        }
        acc = acc * i;
    }
    acc
}

/// Tells whether a guess between 1 and 10 hit the number 5.
pub fn guess(n: i32) -> (r: bool)
    requires
        1 <= n <= 10,
    ensures
        r == (n == 5),
{
    n == 5
}

/// Why a text is not a 32-bit number.
#[derive(Clone, Copy, Debug, PartialEq, Eq, Structural)]
pub enum NumberError {
    /// The text is empty.
    Empty,
    /// The text holds something that is no digit where one is due.
    InvalidDigit,
    /// The number is too large for 32 bits.
    PosOverflow,
    /// The number is too small for 32 bits.
    NegOverflow,
}

/// What the standard library reads from the decimal text `s` as a signed
/// 32-bit number.
pub uninterp spec fn parsed_i32(s: Seq<char>) -> Result<i32, NumberError>;

/// Calls `str::parse::<i32>`. The contract gives the result its name and
/// claims nothing else of it; an error is told apart by its kind.
#[verifier::external_body]
fn parse_i32(s: &str) -> (r: Result<i32, NumberError>)
    ensures
        r == parsed_i32(s@),
{
    match s.parse::<i32>() {
        Ok(n) => Ok(n),
        Err(e) => Err(
            match e.kind() {
                IntErrorKind::Empty => NumberError::Empty,
                IntErrorKind::PosOverflow => NumberError::PosOverflow,
                IntErrorKind::NegOverflow => NumberError::NegOverflow,
                _ => NumberError::InvalidDigit,
            },
        ),
    }
}

/// A parsed number can be doubled within 32 bits; an error always can be
/// handed on.
pub open spec fn can_double(parsed: Result<i32, NumberError>) -> bool {
    match parsed {
        Ok(n) => i32::MIN <= 2 * n <= i32::MAX,
        Err(_) => true,
    }
}

/// Twice the number, or the error as it is.
pub open spec fn doubled(parsed: Result<i32, NumberError>) -> Result<i32, NumberError> {
    match parsed {
        Ok(n) => Ok((2 * n) as i32),
        Err(e) => Err(e),
    }
}

/// Doubles a number that was read, and hands an error on.
pub fn double_parsed(parsed: Result<i32, NumberError>) -> (r: Result<i32, NumberError>)
    requires
        can_double(parsed),
    ensures
        r == doubled(parsed),
{
    match parsed {
        Ok(n) => Ok(2 * n),
        Err(e) => Err(e),
    }
}

/// Reads a number from `number_str` and doubles it.
pub fn double_number(number_str: &str) -> (r: Result<i32, NumberError>)
    requires
        can_double(parsed_i32(number_str@)),
    ensures
        r == doubled(parsed_i32(number_str@)),
{
    double_parsed(parse_i32(number_str))
}

/// Reads a number from `number_str` and doubles it, if twice the number
/// fits in 32 bits; `None` if it does not.
pub fn checked_double_number(number_str: &str) -> (r: Option<Result<i32, NumberError>>)
    ensures
        r == if can_double(parsed_i32(number_str@)) {
            Some(doubled(parsed_i32(number_str@)))
        } else {
            None
        },
{
    let fits = match parse_i32(number_str) {
        Ok(n) => -1073741824 <= n && n <= 1073741823,
        Err(_) => true,
    };
    if fits {
        Some(double_number(number_str))
    } else {
        None
    }
}

/// Fails at once with the message `"error!"`, as a computation does that
/// leaves at its first error.
pub fn test_try() -> (r: Result<usize, &'static str>)
    ensures
        r is Err,
        r->Err_0@ == "error!"@,
{
    let first: Result<usize, &'static str> = Err("error!");
    match first {
        Ok(num) => Ok(num),
        Err(e) => Err(e),
    }
}

} // verus!
