use vstd::prelude::*;
use vstd::string::StringExecFns;

verus! {

/// Why reading samples or training stopped without a fitted line.
#[derive(Debug, Clone, Copy, PartialEq, Eq, Structural)]
pub enum TrainingError {
    /// The line with this 1-based number holds fewer than two fields.
    NotEnoughValues(isize),
    /// A field on the line with this 1-based number is no decimal number in range.
    InvalidNumber(isize),
    /// There are no samples to fit.
    NoValues,
    /// There are more samples than the arithmetic can sum.
    TooManyValues,
    /// A sample coordinate or the learning rate lies outside `±VALUE_LIMIT`.
    ValueOutOfRange,
    /// The cost rose by more than the divergence margin, or a parameter left
    /// the representable range: the learning rate is too large.
    AlphaTooLarge,
    /// The cost did not settle within the iteration budget.
    NotSettled,
    /// The learning rate shrank to zero before any run converged.
    AlphaExhausted,
}

/// The character of a decimal digit.
pub open spec fn digit_char(d: int) -> char {
    if d == 0 { '0' } else if d == 1 { '1' } else if d == 2 { '2' } else if d == 3 { '3' } else if d
        == 4 { '4' } else if d == 5 { '5' } else if d == 6 { '6' } else if d == 7 { '7' } else if d
        == 8 { '8' } else { '9' }
}

/// The decimal digits of `n`, without leading zeros.
pub open spec fn decimal_text(n: nat) -> Seq<char>
    decreases n,
{
    if n < 10 {
        seq![digit_char(n as int)]
    } else {
        decimal_text(n / 10) + seq![digit_char((n % 10) as int)]
    }
}

/// An integer in decimal, with a minus sign where it is negative.
pub open spec fn signed_text(n: int) -> Seq<char> {
    if n < 0 {
        seq!['-'] + decimal_text((-n) as nat)
    } else {
        decimal_text(n as nat)
    }
}

/// The human-readable text of each error.
pub open spec fn message_of(e: TrainingError) -> Seq<char> {
    match e {
        TrainingError::NotEnoughValues(n) => "Not enough input parameters on line "@ + signed_text(n as int),
        TrainingError::InvalidNumber(n) => "Invalid number on line "@ + signed_text(n as int),
        TrainingError::NoValues => "No training values"@,
        TrainingError::TooManyValues => "Too many training values"@,
        TrainingError::ValueOutOfRange => "Value out of range"@,
        TrainingError::AlphaTooLarge => "Alpha too large"@,
        TrainingError::NotSettled => "Training did not settle"@,
        TrainingError::AlphaExhausted => "No learning rate converged"@,
    }
}

fn digit_str(d: u64) -> (r: &'static str)
    requires
        d < 10,
    ensures
        r@ == seq![digit_char(d as int)],
{
    proof {
        reveal_strlit("0");
        reveal_strlit("1");
        reveal_strlit("2");
        reveal_strlit("3");
        reveal_strlit("4");
        reveal_strlit("5");
        reveal_strlit("6");
        reveal_strlit("7");
        reveal_strlit("8");
        reveal_strlit("9");
    }
    if d == 0 {
        "0"
    } else if d == 1 {
        "1"
    } else if d == 2 {
        "2"
    } else if d == 3 {
        "3"
    } else if d == 4 {
        "4"
    } else if d == 5 {
        "5"
    } else if d == 6 {
        "6"
    } else if d == 7 {
        "7"
    } else if d == 8 {
        "8"
    } else {
        "9"
    }
}

fn append_decimal(s: &mut String, n: u64)
    ensures
        final(s)@ == old(s)@ + decimal_text(n as nat),
    decreases n,
{
    if n >= 10 {
        append_decimal(s, n / 10);
    }
    s.append(digit_str(n % 10));
    proof {
        if n >= 10 {
            assert(final(s)@ =~= old(s)@ + decimal_text(n as nat));
        } else {
            assert(n % 10 == n);
        }
    }
}

fn append_signed(s: &mut String, n: isize)
    ensures
        final(s)@ == old(s)@ + signed_text(n as int),
{
    if n < 0 {
        proof {
            reveal_strlit("-");
        }
        s.append("-");
        let m: u64 = if n == isize::MIN {
            (isize::MAX as u64) + 1
        } else {
            (-n) as u64
        };
        append_decimal(s, m);
        proof {
            assert(final(s)@ =~= old(s)@ + signed_text(n as int));
        }
    } else {
        append_decimal(s, n as u64);
    }
}

impl TrainingError {
    /// The error as a sentence for the user.
    pub fn message(&self) -> (r: String)
        ensures
            r@ == message_of(*self),
    {
        match self {
            TrainingError::NotEnoughValues(n) => {
                let mut s = String::from_str("Not enough input parameters on line ");
                append_signed(&mut s, *n);
                s
            },
            TrainingError::InvalidNumber(n) => {
                let mut s = String::from_str("Invalid number on line ");
                append_signed(&mut s, *n);
                s
            },
            TrainingError::NoValues => String::from_str("No training values"),
            TrainingError::TooManyValues => String::from_str("Too many training values"),
            TrainingError::ValueOutOfRange => String::from_str("Value out of range"),
            TrainingError::AlphaTooLarge => String::from_str("Alpha too large"),
            TrainingError::NotSettled => String::from_str("Training did not settle"),
            TrainingError::AlphaExhausted => String::from_str("No learning rate converged"),
        }
    }
}

} // verus!
