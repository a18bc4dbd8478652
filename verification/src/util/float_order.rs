//! The IEEE 754 order and equality of two numbers, read off their bit patterns.

use std::cmp::Ordering;
use vstd::prelude::*;

verus! {

/// The bit that holds the sign of a double.
pub const DOUBLE_SIGN: u64 = 0x8000_0000_0000_0000;

/// The magnitude of the infinite doubles; every larger magnitude is a NaN.
pub const DOUBLE_INFINITY: u64 = 0x7ff0_0000_0000_0000;

/// The bit that holds the sign of a single-precision number.
pub const FLOAT_SIGN: u32 = 0x8000_0000;

/// The magnitude of the infinite single-precision numbers; every larger
/// magnitude is a NaN.
pub const FLOAT_INFINITY: u32 = 0x7f80_0000;

/// The magnitude of a double: its bits without the sign.
pub open spec fn double_magnitude(bits: u64) -> u64 {
    if bits >= DOUBLE_SIGN {
        (bits - DOUBLE_SIGN) as u64
    } else {
        bits
    }
}

/// Whether the bits of a double hold no number.
pub open spec fn double_is_nan(bits: u64) -> bool {
    double_magnitude(bits) > DOUBLE_INFINITY
}

/// The magnitude of a single-precision number: its bits without the sign.
pub open spec fn float_magnitude(bits: u32) -> u64 {
    if bits >= FLOAT_SIGN {
        (bits - FLOAT_SIGN) as u64
    } else {
        bits as u64
    }
}

/// Whether the bits of a single-precision number hold no number.
pub open spec fn float_is_nan(bits: u32) -> bool {
    float_magnitude(bits) > FLOAT_INFINITY
}

/// The order of two numbers given by sign and magnitude: the two zeros are
/// equal, a negative number is below a positive one, and two numbers of one
/// sign go by magnitude, the larger magnitude being the smaller number where
/// both are negative.
pub open spec fn sign_magnitude_order(
    negative_x: bool,
    magnitude_x: u64,
    negative_y: bool,
    magnitude_y: u64,
) -> Ordering {
    if magnitude_x == 0 && magnitude_y == 0 {
        Ordering::Equal
    } else if negative_x != negative_y {
        if negative_x {
            Ordering::Less
        } else {
            Ordering::Greater
        }
    } else if magnitude_x == magnitude_y {
        Ordering::Equal
    } else if (magnitude_x < magnitude_y) != negative_x {
        Ordering::Less
    } else {
        Ordering::Greater
    }
}

/// The IEEE 754 order of two doubles given by their bits: none where either is
/// a NaN, else their order by sign and magnitude.
pub open spec fn double_order(x: u64, y: u64) -> Option<Ordering> {
    if double_is_nan(x) || double_is_nan(y) {
        None
    } else {
        Some(
            sign_magnitude_order(
                x >= DOUBLE_SIGN,
                double_magnitude(x),
                y >= DOUBLE_SIGN,
                double_magnitude(y),
            ),
        )
    }
}

/// The IEEE 754 order of two single-precision numbers given by their bits.
pub open spec fn float_order(x: u32, y: u32) -> Option<Ordering> {
    if float_is_nan(x) || float_is_nan(y) {
        None
    } else {
        Some(
            sign_magnitude_order(
                x >= FLOAT_SIGN,
                float_magnitude(x),
                y >= FLOAT_SIGN,
                float_magnitude(y),
            ),
        )
    }
}

/// Whether two doubles given by their bits are equal as IEEE 754 numbers: a NaN
/// equals nothing, the two zeros equal each other, and any other number equals
/// the one with the same bits.
pub open spec fn doubles_equal(x: u64, y: u64) -> bool {
    !double_is_nan(x) && !double_is_nan(y) && (x == y || (double_magnitude(x) == 0
        && double_magnitude(y) == 0))
}

/// Whether two single-precision numbers given by their bits are equal as IEEE
/// 754 numbers.
pub open spec fn floats_equal(x: u32, y: u32) -> bool {
    !float_is_nan(x) && !float_is_nan(y) && (x == y || (float_magnitude(x) == 0
        && float_magnitude(y) == 0))
}

fn order_by_sign_and_magnitude(
    negative_x: bool,
    magnitude_x: u64,
    negative_y: bool,
    magnitude_y: u64,
) -> (order: Ordering)
    ensures
        order == sign_magnitude_order(negative_x, magnitude_x, negative_y, magnitude_y),
{
    if magnitude_x == 0 && magnitude_y == 0 {
        Ordering::Equal
    } else if negative_x != negative_y {
        if negative_x {
            Ordering::Less
        } else {
            Ordering::Greater
        }
    } else if magnitude_x == magnitude_y {
        Ordering::Equal
    } else if (magnitude_x < magnitude_y) != negative_x {
        Ordering::Less
    } else {
        Ordering::Greater
    }
}

fn magnitude_of_double(bits: u64) -> (magnitude: u64)
    ensures
        magnitude == double_magnitude(bits),
{
    if bits >= DOUBLE_SIGN {
        bits - DOUBLE_SIGN
    } else {
        bits
    }
}

fn magnitude_of_float(bits: u32) -> (magnitude: u64)
    ensures
        magnitude == float_magnitude(bits),
{
    if bits >= FLOAT_SIGN {
        (bits - FLOAT_SIGN) as u64
    } else {
        bits as u64
    }
}

/// Orders two doubles given by their bits, as IEEE 754 orders the numbers.
pub fn compare_doubles(x: u64, y: u64) -> (order: Option<Ordering>)
    ensures
        order == double_order(x, y),
{
    let magnitude_x = magnitude_of_double(x);
    let magnitude_y = magnitude_of_double(y);
    if magnitude_x > DOUBLE_INFINITY || magnitude_y > DOUBLE_INFINITY {
        None
    } else {
        Some(
            order_by_sign_and_magnitude(x >= DOUBLE_SIGN, magnitude_x, y >= DOUBLE_SIGN, magnitude_y),
        )
    }
}

/// Orders two single-precision numbers given by their bits, as IEEE 754 orders
/// the numbers.
pub fn compare_floats(x: u32, y: u32) -> (order: Option<Ordering>)
    ensures
        order == float_order(x, y),
{
    let magnitude_x = magnitude_of_float(x);
    let magnitude_y = magnitude_of_float(y);
    if magnitude_x > u64::from(FLOAT_INFINITY) || magnitude_y > u64::from(FLOAT_INFINITY) {
        None
    } else {
        Some(
            order_by_sign_and_magnitude(x >= FLOAT_SIGN, magnitude_x, y >= FLOAT_SIGN, magnitude_y),
        )
    }
}

/// Tells whether two doubles given by their bits are equal as IEEE 754 numbers.
pub fn equal_doubles(x: u64, y: u64) -> (equal: bool)
    ensures
        equal == doubles_equal(x, y),
{
    let magnitude_x = magnitude_of_double(x);
    let magnitude_y = magnitude_of_double(y);
    magnitude_x <= DOUBLE_INFINITY && magnitude_y <= DOUBLE_INFINITY && (x == y || (magnitude_x
        == 0 && magnitude_y == 0))
}

/// Tells whether two single-precision numbers given by their bits are equal as
/// IEEE 754 numbers.
pub fn equal_floats(x: u32, y: u32) -> (equal: bool)
    ensures
        equal == floats_equal(x, y),
{
    let magnitude_x = magnitude_of_float(x);
    let magnitude_y = magnitude_of_float(y);
    magnitude_x <= FLOAT_INFINITY as u64 && magnitude_y <= FLOAT_INFINITY as u64 && (x == y || (
    magnitude_x == 0 && magnitude_y == 0))
}

/// Two doubles are equal exactly when their order is equality.
pub proof fn lemma_doubles_equal_is_order(x: u64, y: u64)
    ensures
        doubles_equal(x, y) <==> double_order(x, y) == Some(Ordering::Equal),
{
}

/// Two single-precision numbers are equal exactly when their order is equality.
pub proof fn lemma_floats_equal_is_order(x: u32, y: u32)
    ensures
        floats_equal(x, y) <==> float_order(x, y) == Some(Ordering::Equal),
{
}

} // verus!
