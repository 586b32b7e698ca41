//! Numbers: 64-bit integers, and binary64 values held by their bit pattern.

use vstd::prelude::*;
use vstd::arithmetic::power2::{
    lemma2_to64, lemma2_to64_rest, lemma_pow2_strictly_increases, lemma_pow2_unfold, pow2,
};
use crate::decimal::{
    bounded_decimal_value, decimal_text, read_decimal, signed_decimal_text, write_decimal,
};
use crate::text::characters_of;

verus! {

/// A number of a JSON text, in the narrowest of three forms that holds it.
///
/// `Float` holds the bit pattern of a binary64 value, as `to_bits` of the
/// standard library gives it.
#[derive(Debug, PartialEq, Clone, Copy)]
pub enum Number {
    Integer(i64),
    UnsignedInteger(u64),
    Float(u64),
}

/// The number that `text` denotes as an unsigned literal: digits, with or
/// without a plus sign before them.
pub open spec fn unsigned_literal(text: Seq<char>) -> Option<u64> {
    let digits = if text.len() > 0 && text[0] == '+' {
        text.skip(1)
    } else {
        text
    };
    match bounded_decimal_value(digits, u64::MAX as nat) {
        Some(value) => Some(value as u64),
        None => None,
    }
}

/// The number that `text` denotes as a signed literal: digits, with or
/// without a sign before them.
pub open spec fn signed_literal(text: Seq<char>) -> Option<i64> {
    if text.len() > 0 && text[0] == '-' {
        match bounded_decimal_value(text.skip(1), 0x8000_0000_0000_0000) {
            Some(value) => Some((-(value as int)) as i64),
            None => None,
        }
    } else {
        let digits = if text.len() > 0 && text[0] == '+' {
            text.skip(1)
        } else {
            text
        };
        match bounded_decimal_value(digits, i64::MAX as nat) {
            Some(value) => Some(value as i64),
            None => None,
        }
    }
}

/// The integer that `text` denotes: unsigned where that fits, else signed.
pub open spec fn integer_literal(text: Seq<char>) -> Option<Number> {
    match unsigned_literal(text) {
        Some(value) => Some(Number::UnsignedInteger(value)),
        None => match signed_literal(text) {
            Some(value) => Some(Number::Integer(value)),
            None => None,
        },
    }
}

/// The exponent field of a binary64 bit pattern.
pub open spec fn float_exponent(bits: u64) -> nat {
    ((bits / 0x10_0000_0000_0000) % 0x800) as nat
}

/// The fraction field of a binary64 bit pattern.
pub open spec fn float_fraction(bits: u64) -> nat {
    (bits % 0x10_0000_0000_0000) as nat
}

/// The sign bit of a binary64 bit pattern.
pub open spec fn float_negative(bits: u64) -> bool {
    bits >= 0x8000_0000_0000_0000
}

/// The absolute value of the binary64 value with these bits, where that is a
/// whole number. Infinities and NaNs have none.
pub open spec fn float_whole_magnitude(bits: u64) -> Option<nat> {
    let exponent = float_exponent(bits);
    let significand = 0x10_0000_0000_0000 + float_fraction(bits);
    if exponent == 0x7ff {
        None
    } else if exponent == 0 {
        if float_fraction(bits) == 0 {
            Some(0)
        } else {
            None
        }
    } else if exponent >= 1075 {
        Some(significand * pow2((exponent - 1075) as nat))
    } else if exponent >= 1023 {
        let divisor = pow2((1075 - exponent) as nat);
        if significand % divisor == 0 {
            Some(significand / divisor)
        } else {
            None
        }
    } else {
        None
    }
}

/// The form in which a binary64 value is held: a whole value from zero up
/// to 2^64 - 1 as that unsigned integer, a whole value from -2^63 to below
/// zero as that signed integer, anything else as it is. Both zeros are the
/// unsigned integer zero.
pub open spec fn float_number(bits: u64) -> Number {
    match float_whole_magnitude(bits) {
        Some(magnitude) => if magnitude == 0 {
            Number::UnsignedInteger(0)
        } else if !float_negative(bits) {
            if magnitude < 0x1_0000_0000_0000_0000 {
                Number::UnsignedInteger(magnitude as u64)
            } else {
                Number::Float(bits)
            }
        } else if magnitude <= 0x8000_0000_0000_0000 {
            Number::Integer((-(magnitude as int)) as i64)
        } else {
            Number::Float(bits)
        },
        None => Number::Float(bits),
    }
}

/// What a literal is classified as, given what reading it as a binary64
/// value gave: `None` where it could not be read so.
pub open spec fn classified(literal: Seq<char>, float_bits: Option<u64>) -> Option<Number> {
    match integer_literal(literal) {
        Some(number) => Some(number),
        None => match float_bits {
            Some(bits) => Some(float_number(bits)),
            None => None,
        },
    }
}

/// Whether `decode` returns on every text what `floats` gives for it.
pub open spec fn reads_floats<F: Fn(&str) -> Option<u64>>(
    decode: F,
    floats: spec_fn(Seq<char>) -> Option<u64>,
) -> bool {
    forall|text: &str, bits: Option<u64>|
        call_ensures(decode, (text,), bits) ==> bits == floats(text@)
}

/// The text of a number, where `float_text` says how a binary64 value is
/// written: an integer in decimal notation, without a point or an exponent.
pub open spec fn number_text(number: Number, float_text: spec_fn(u64) -> Seq<char>) -> Seq<char> {
    match number {
        Number::Integer(value) => signed_decimal_text(value as int),
        Number::UnsignedInteger(value) => decimal_text(value as nat),
        Number::Float(bits) => float_text(bits),
    }
}

/// Whether `format` returns for every bit pattern the text that `float_text`
/// gives for it.
pub open spec fn writes_floats<G: Fn(u64) -> String>(
    format: G,
    float_text: spec_fn(u64) -> Seq<char>,
) -> bool {
    forall|bits: u64, text: String| call_ensures(format, (bits,), text) ==> text@
        == float_text(bits)
}

impl Number {
    /// Classifies a literal: as an unsigned integer where it is one, else as
    /// a signed integer, else as what `decode` reads it as, a whole value in
    /// range becoming an integer. `None` where it is none of these.
    pub fn parse<F: Fn(&str) -> Option<u64>>(sequence: &String,
        decode: &F) -> (result: Option<Self>)
        requires
            forall|text: &str| call_requires(*decode, (text,)),
        ensures
            integer_literal(sequence@) is Some ==> result == integer_literal(sequence@),
            integer_literal(sequence@) is None ==> exists|text: &str, bits: Option<u64>|
                text@ == sequence@ && call_ensures(*decode, (text,), bits) && result == classified(
                    sequence@,
                    bits,
                ),
            forall|floats: spec_fn(Seq<char>) -> Option<u64>| #[trigger]
                reads_floats(*decode, floats) ==> result == classified(
                    sequence@,
                    floats(sequence@),
                ),
    {
        match Self::integer(sequence.as_str()) {
            Some(number) => Some(number),
            None => match decode(sequence.as_str()) {
                Some(bits) => Some(Self::from_float_bits(bits)),
                None => None,
            },
        }
    }

    /// Classifies a literal of which reading it as a binary64 value gave
    /// `float_bits`.
    pub fn classify(sequence: &str, float_bits: Option<u64>) -> (result: Option<Self>)
        ensures
            result == classified(sequence@, float_bits),
    {
        match Self::integer(sequence) {
            Some(number) => Some(number),
            None => match float_bits {
                Some(bits) => Some(Self::from_float_bits(bits)),
                None => None,
            },
        }
    }

    /// The integer that `sequence` denotes, if it denotes one that fits.
    pub fn integer(sequence: &str) -> (result: Option<Self>)
        ensures
            result == integer_literal(sequence@),
    {
        let characters = characters_of(sequence);
        if characters.len() == 0 {
            return None;
        }
        let first = characters[0];
        let from: usize = if first == '+' || first == '-' {
            1
        } else {
            0
        };
        assert(characters@.skip(0) == characters@);
        if first == '-' {
            match read_decimal(&characters, from, 0x8000_0000_0000_0000) {
                Some(magnitude) => {
                    if magnitude == 0x8000_0000_0000_0000 {
                        Some(Number::Integer(i64::MIN))
                    } else {
                        Some(Number::Integer(-(magnitude as i64)))
                    }
                },
                None => None,
            }
        } else {
            match read_decimal(&characters, from, u64::MAX) {
                Some(value) => Some(Number::UnsignedInteger(value)),
                None => None,
            }
        }
    }

    /// The form in which the binary64 value with the given bit pattern is
    /// held.
    pub fn from_float_bits(bits: u64) -> (result: Self)
        ensures
            result == float_number(bits),
    {
        let exponent: u64 = (bits / 0x10_0000_0000_0000) % 0x800;
        let fraction: u64 = bits % 0x10_0000_0000_0000;
        let negative: bool = bits >= 0x8000_0000_0000_0000;
        let significand: u64 = 0x10_0000_0000_0000 + fraction;
        proof {
            lemma2_to64();
            lemma2_to64_rest();
        }
        if exponent == 0 {
            if fraction == 0 {
                Number::UnsignedInteger(0)
            } else {
                Number::Float(bits)
            }
        } else if exponent < 1023 || exponent == 0x7ff {
            Number::Float(bits)
        } else if exponent >= 1087 {
            proof {
                if exponent > 1087 {
                    lemma_pow2_strictly_increases(12, (exponent - 1075) as nat);
                }
                lemma_product_grows(
                    0x10_0000_0000_0000,
                    significand as nat,
                    pow2(12),
                    pow2((exponent - 1075) as nat),
                );
            }
            Number::Float(bits)
        } else if exponent >= 1075 {
            let factor: u64 = power_of_two((exponent - 1075) as u32);
            proof {
                if exponent < 1086 {
                    lemma_pow2_strictly_increases((exponent - 1075) as nat, 11);
                }
                lemma_product_grows(significand as nat, 0x1f_ffff_ffff_ffff, factor as nat, 2048);
                lemma_product_grows(0x10_0000_0000_0000, significand as nat, 1, factor as nat);
            }
            Self::whole(negative, significand * factor, bits)
        } else {
            let divisor: u64 = power_of_two((1075 - exponent) as u32);
            proof {
                if exponent > 1023 {
                    lemma_pow2_strictly_increases((1075 - exponent) as nat, 52);
                }
            }
            if significand % divisor == 0 {
                proof {
                    assert(significand / divisor > 0) by (nonlinear_arith)
                        requires
                            0 < divisor <= significand,
                    ;
                    assert(significand / divisor <= significand) by (nonlinear_arith)
                        requires
                            0 < divisor,
                            0 <= significand,
                    ;
                }
                Self::whole(negative, significand / divisor, bits)
            } else {
                Number::Float(bits)
            }
        }
    }

    /// The form in which a whole value other than zero is held, given its
    /// sign and its magnitude, which is below 2^64.
    fn whole(negative: bool, magnitude: u64, bits: u64) -> (result: Self)
        requires
            magnitude > 0,
        ensures
            result == if !negative {
                Number::UnsignedInteger(magnitude)
            } else if magnitude <= 0x8000_0000_0000_0000 {
                Number::Integer((-(magnitude as int)) as i64)
            } else {
                Number::Float(bits)
            },
    {
        if !negative {
            Number::UnsignedInteger(magnitude)
        } else if magnitude < 0x8000_0000_0000_0000 {
            Number::Integer(-(magnitude as i64))
        } else if magnitude == 0x8000_0000_0000_0000 {
            Number::Integer(i64::MIN)
        } else {
            Number::Float(bits)
        }
    }

    /// The text of the number: an integer in decimal notation, a binary64
    /// value as `format` writes it.
    pub fn to_string<G: Fn(u64) -> String>(&self, format: &G) -> (result: String)
        requires
            forall|bits: u64| call_requires(*format, (bits,)),
        ensures
            self matches Number::Integer(value) ==> result@ == signed_decimal_text(*value as int),
            self matches Number::UnsignedInteger(value) ==> result@ == decimal_text(*value as nat),
            self matches Number::Float(bits) ==> call_ensures(*format, (*bits,), result),
            forall|float_text: spec_fn(u64) -> Seq<char>| #[trigger]
                writes_floats(*format, float_text) ==> result@ == number_text(*self, float_text),
    {
        match self {
            Number::Integer(value) => {
                if *value < 0 {
                    let magnitude: u64 = if *value == i64::MIN {
                        0x8000_0000_0000_0000
                    } else {
                        (-*value) as u64
                    };
                    let digits = write_decimal(magnitude);
                    let mut result = String::new();
                    result.push('-');
                    result.append(digits.as_str());
                    result
                } else {
                    write_decimal(*value as u64)
                }
            },
            Number::UnsignedInteger(value) => write_decimal(*value),
            Number::Float(bits) => format(*bits),
        }
    }
}

/// 2 to the power of `exponent`.
fn power_of_two(exponent: u32) -> (result: u64)
    requires
        exponent < 64,
    ensures
        result == pow2(exponent as nat),
{
    let mut result: u64 = 1;
    let mut done: u32 = 0;
    proof {
        lemma2_to64();
    }
    while done < exponent
        invariant
            done <= exponent < 64,
            result == pow2(done as nat),
        decreases exponent - done,
    {
        proof {
            lemma_pow2_unfold((done + 1) as nat);
            if done + 1 < 63 {
                lemma_pow2_strictly_increases((done + 1) as nat, 63);
            }
            lemma2_to64_rest();
        }
        result = result * 2;
        done += 1;
    }
    result
}

/// A product of natural numbers is no smaller than one of smaller factors.
proof fn lemma_product_grows(a: nat, b: nat, c: nat, d: nat)
    requires
        a <= b,
        c <= d,
    ensures
        a * c <= b * d,
{
    assert(a * c <= b * d) by (nonlinear_arith)
        requires
            a <= b,
            c <= d,
    ;
}

} // verus!
