//! Which orders a sample admits, and why a sample or an order is refused.

use crate::model::valid_order;
use crate::text::{strip_bounds, to_chars, trimmed};
use vstd::prelude::*;

verus! {

/// Why no table can be built.
#[derive(Clone, Copy, Debug, PartialEq, Eq, Structural)]
pub enum ModelError {
    /// The sample holds no unit at all.
    EmptySample,
    /// The order is zero, or not smaller than the sample's length.
    InvalidOrder,
}

impl ModelError {
    /// A sentence for the user.
    pub fn message(&self) -> (text: &'static str)
        ensures
            text@ == (match *self {
                ModelError::EmptySample => "the sample text is empty"@,
                ModelError::InvalidOrder => "the order must be at least 1 and smaller than the sample length"@,
            }),
    {
        match self {
            ModelError::EmptySample => "the sample text is empty",
            ModelError::InvalidOrder => "the order must be at least 1 and smaller than the sample length",
        }
    }
}

/// What `check_order` answers for a sample of `sample_len` units: an empty
/// sample is refused first, then an order that is zero or too large.
pub open spec fn checked_order(sample_len: nat, order: nat) -> Result<(), ModelError> {
    if sample_len == 0 {
        Err(ModelError::EmptySample)
    } else if order == 0 || order >= sample_len {
        Err(ModelError::InvalidOrder)
    } else {
        Ok(())
    }
}

/// Accepts `order` for a sample of `sample_len` units, or says why not.
pub fn check_order(sample_len: usize, order: usize) -> (verdict: Result<(), ModelError>)
    ensures
        verdict == checked_order(sample_len as nat, order as nat),
{
    if sample_len == 0 {
        Err(ModelError::EmptySample)
    } else if order == 0 || order >= sample_len {
        Err(ModelError::InvalidOrder)
    } else {
        Ok(())
    }
}

/// An order is accepted exactly if it is valid for the sample.
pub proof fn lemma_accepted_orders_are_valid(sample: Seq<char>, order: nat)
    ensures
        checked_order(sample.len(), order) is Ok <==> valid_order(sample, order),
{
}

/// The decimal digits.
pub open spec fn is_digit(c: char) -> bool {
    '0' <= c <= '9'
}

/// The number that a decimal digit stands for.
pub open spec fn digit_value(c: char) -> nat {
    (c as u32 - '0' as u32) as nat
}

/// Whether `text` holds decimal digits only.
pub open spec fn all_digits(text: Seq<char>) -> bool {
    forall|i: int| 0 <= i < text.len() ==> is_digit(#[trigger] text[i])
}

/// The number that the decimal digits `digits` write.
pub open spec fn decimal_value(digits: Seq<char>) -> nat
    decreases digits.len(),
{
    if digits.len() == 0 {
        0
    } else {
        10 * decimal_value(digits.drop_last()) + digit_value(digits.last())
    }
}

/// `text` without a plus sign at its start.
pub open spec fn unsigned_part(text: Seq<char>) -> Seq<char> {
    if text.len() > 0 && text[0] == '+' {
        text.drop_first()
    } else {
        text
    }
}

/// The number that `text` writes: an optional plus sign, then one decimal
/// digit or more, and nothing else.
pub open spec fn written_number(text: Seq<char>) -> Option<nat> {
    let digits = unsigned_part(text);
    if digits.len() > 0 && all_digits(digits) {
        Some(decimal_value(digits))
    } else {
        None
    }
}

/// The order that a line of input asks for: the number that the line
/// writes once the white space around it is taken away; zero where the line
/// writes no number, or one that the machine cannot hold.
pub open spec fn order_from_line(line: Seq<char>) -> nat {
    match written_number(trimmed(line)) {
        Some(number) => if number <= usize::MAX {
            number
        } else {
            0
        },
        None => 0,
    }
}

/// More digits never write a smaller number.
proof fn lemma_decimal_value_grows(digits: Seq<char>, k: int)
    requires
        0 <= k <= digits.len(),
    ensures
        decimal_value(digits.take(k)) <= decimal_value(digits),
    decreases digits.len() - k,
{
    if k < digits.len() {
        lemma_decimal_value_grows(digits, k + 1);
        assert(digits.take(k + 1).drop_last() =~= digits.take(k));
    } else {
        assert(digits.take(k) =~= digits);
    }
}

/// The number that a decimal digit stands for, if `c` is one.
fn digit_of(c: char) -> (digit: Option<usize>)
    ensures
        match digit {
            Some(value) => is_digit(c) && value == digit_value(c),
            None => !is_digit(c),
        },
{
    if '0' <= c && c <= '9' {
        Some((c as u32 - '0' as u32) as usize)
    } else {
        None
    }
}

/// The order that the line `user_input` asks for, or zero where it asks for
/// none.
///
/// White space around the number is ignored. The number is an optional plus
/// sign and decimal digits. A line that holds anything else, and a number
/// that is too large for the machine, give zero, which no sample admits as
/// an order.
pub fn get_order_from_user(user_input: &String) -> (order: usize)
    ensures
        order == order_from_line(user_input@),
{
    let chars = to_chars(user_input.as_str());
    let (from, to) = strip_bounds(&chars, false);
    let ghost text = chars@.subrange(from as int, to as int);
    let start: usize = if from < to && chars[from] == '+' {
        from + 1
    } else {
        from
    };
    let ghost digits = unsigned_part(text);
    if start == to {
        return 0;
    }
    let mut order: usize = 0;
    let mut i: usize = start;
    while i < to
        invariant
            start <= i <= to <= chars.len(),
            digits == chars@.subrange(start as int, to as int),
            digits == unsigned_part(trimmed(user_input@)),
            all_digits(digits.take(i - start)),
            order == decimal_value(digits.take(i - start)),
        decreases to - i,
    {
        let ghost seen = digits.take(i - start);
        let ghost more = digits.take(i - start + 1);
        assert(more.drop_last() =~= seen);
        match digit_of(chars[i]) {
            None => {
                assert(!is_digit(digits[i - start]));
                return 0;
            },
            Some(digit) => {
                proof {
                    lemma_decimal_value_grows(digits, i - start + 1);
                }
                match order.checked_mul(10) {
                    None => { return 0; },
                    Some(tens) => match tens.checked_add(digit) {
                        None => { return 0; },
                        Some(sum) => { order = sum; },
                    },
                }
            },
        }
        i += 1;
    }
    assert(digits.take(to - start) =~= digits);
    order
}

} // verus!
