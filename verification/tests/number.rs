use json_parser::number::Number;

fn decode(text: &str) -> Option<u64> {
    text.parse::<f64>().ok().map(f64::to_bits)
}

fn format(bits: u64) -> String {
    f64::from_bits(bits).to_string()
}

fn classify(text: &str) -> Option<Number> {
    Number::parse(&String::from(text), &decode)
}

/// The classification of a binary64 value, computed with floating point.
fn by_floating_point(float: f64) -> Number {
    if float.fract() == 0.0 && float >= u64::MIN as f64 && float < 18446744073709551616.0 {
        Number::UnsignedInteger(float as u64)
    } else if float.fract() == 0.0 && float >= i64::MIN as f64 && float <= i64::MAX as f64 {
        Number::Integer(float as i64)
    } else {
        Number::Float(float.to_bits())
    }
}

#[test]
fn classify_plain_integer() {
    assert_eq!(classify("2073"), Some(Number::UnsignedInteger(2073)));
}

#[test]
fn classify_integer_with_exponent() {
    assert_eq!(classify("2e2"), Some(Number::UnsignedInteger(200)));
    assert_eq!(classify("2E2"), Some(Number::UnsignedInteger(200)));
    assert_eq!(classify("0.22e2"), Some(Number::UnsignedInteger(22)));
}

#[test]
fn classify_negative_integer() {
    assert_eq!(classify("-2073"), Some(Number::Integer(-2073)));
    assert_eq!(classify("-2e2"), Some(Number::Integer(-200)));
    assert_eq!(classify("-2E2"), Some(Number::Integer(-200)));
}

#[test]
fn classify_float() {
    assert_eq!(classify("0.534"), Some(Number::Float(0.534f64.to_bits())));
    assert_eq!(classify("234.534"), Some(Number::Float(234.534f64.to_bits())));
    assert_eq!(classify("0.22e-2"), Some(Number::Float(0.0022f64.to_bits())));
}

#[test]
fn classify_signs_and_zeros() {
    assert_eq!(classify("+5"), Some(Number::UnsignedInteger(5)));
    assert_eq!(classify("0"), Some(Number::UnsignedInteger(0)));
    assert_eq!(classify("007"), Some(Number::UnsignedInteger(7)));
    assert_eq!(classify("-0"), Some(Number::Integer(0)));
    assert_eq!(classify("-0.0"), Some(Number::UnsignedInteger(0)));
    assert_eq!(classify("0.0"), Some(Number::UnsignedInteger(0)));
}

#[test]
fn classify_at_the_bounds() {
    assert_eq!(classify("18446744073709551615"), Some(Number::UnsignedInteger(u64::MAX)));
    assert_eq!(
        classify("18446744073709551616"),
        Some(Number::Float(18446744073709551616.0f64.to_bits()))
    );
    assert_eq!(
        classify("18446744073709551615.0"),
        Some(Number::Float(18446744073709551616.0f64.to_bits()))
    );
    assert_eq!(
        classify("18446744073709549568"),
        Some(Number::UnsignedInteger(18446744073709549568))
    );
    assert_eq!(
        classify("1.8446744073709549568e19"),
        Some(Number::UnsignedInteger(18446744073709549568))
    );
    assert_eq!(classify("-9223372036854775808"), Some(Number::Integer(i64::MIN)));
    assert_eq!(classify("9223372036854775808"), Some(Number::UnsignedInteger(1 << 63)));
    assert_eq!(
        classify("-9223372036854775809"),
        Some(Number::Integer(i64::MIN))
    );
    assert_eq!(classify("1e19"), Some(Number::UnsignedInteger(10_000_000_000_000_000_000)));
    assert_eq!(classify("1e20"), Some(Number::Float(1e20f64.to_bits())));
    assert_eq!(classify("-1e19"), Some(Number::Float((-1e19f64).to_bits())));
}

#[test]
fn classify_rejects_what_is_no_number() {
    assert_eq!(classify(""), None);
    assert_eq!(classify("+"), None);
    assert_eq!(classify("-"), None);
    assert_eq!(classify("--1"), None);
    assert_eq!(classify("1-2"), None);
    assert_eq!(classify("1e"), None);
    assert_eq!(classify("e5"), None);
    assert_eq!(classify("1.2.3"), None);
}

#[test]
fn classify_takes_the_outcome_of_reading_as_given() {
    assert_eq!(Number::classify("12", None), Some(Number::UnsignedInteger(12)));
    assert_eq!(Number::classify("-12", Some(0)), Some(Number::Integer(-12)));
    assert_eq!(Number::classify("1.5", None), None);
    assert_eq!(
        Number::classify("1.5", Some(1.5f64.to_bits())),
        Some(Number::Float(1.5f64.to_bits()))
    );
    assert_eq!(
        Number::classify("1.5", Some(3.0f64.to_bits())),
        Some(Number::UnsignedInteger(3))
    );
}

#[test]
fn integer_reads_both_tiers() {
    assert_eq!(Number::integer("42"), Some(Number::UnsignedInteger(42)));
    assert_eq!(Number::integer("-42"), Some(Number::Integer(-42)));
    assert_eq!(Number::integer("4.2"), None);
    assert_eq!(Number::integer("99999999999999999999"), None);
    assert_eq!(Number::integer("-99999999999999999999"), None);
}

#[test]
fn from_float_bits_agrees_with_floating_point() {
    let samples: Vec<f64> = vec![
        0.0,
        -0.0,
        1.0,
        -1.0,
        0.5,
        -0.5,
        1.5,
        2.0,
        200.0,
        -200.0,
        22.0,
        0.0022,
        0.534,
        234.534,
        4503599627370496.0,
        4503599627370496.5,
        4503599627370497.0,
        9007199254740992.0,
        9007199254740993.0,
        9223372036854775807.0,
        9223372036854775808.0,
        -9223372036854775808.0,
        -9223372036854777856.0,
        18446744073709549568.0,
        18446744073709551615.0,
        18446744073709551616.0,
        18446744073709555712.0,
        1e19,
        1e20,
        -1e19,
        1e300,
        -1e300,
        1e-300,
        5e-324,
        f64::MAX,
        f64::MIN,
        f64::MIN_POSITIVE,
        f64::EPSILON,
        f64::INFINITY,
        f64::NEG_INFINITY,
        f64::NAN,
    ];
    for float in samples {
        assert_eq!(
            Number::from_float_bits(float.to_bits()),
            by_floating_point(float),
            "{}",
            float
        );
    }
}

#[test]
fn from_float_bits_agrees_on_powers_and_neighbours() {
    let mut power: f64 = 1.0;
    for _ in 0..70 {
        for float in [power, -power, power + 1.0, power - 1.0, power * 1.5, power / 3.0, -power / 4.0] {
            assert_eq!(
                Number::from_float_bits(float.to_bits()),
                by_floating_point(float),
                "{}",
                float
            );
            let above = f64::from_bits(float.to_bits() + 1);
            assert_eq!(
                Number::from_float_bits(above.to_bits()),
                by_floating_point(above),
                "{}",
                above
            );
        }
        power *= 2.0;
    }
}

#[test]
fn to_string_writes_integers_in_decimal() {
    assert_eq!(Number::UnsignedInteger(0).to_string(&format), "0");
    assert_eq!(Number::UnsignedInteger(200).to_string(&format), "200");
    assert_eq!(Number::UnsignedInteger(u64::MAX).to_string(&format), "18446744073709551615");
    assert_eq!(Number::Integer(-200).to_string(&format), "-200");
    assert_eq!(Number::Integer(7).to_string(&format), "7");
    assert_eq!(Number::Integer(i64::MIN).to_string(&format), "-9223372036854775808");
    assert_eq!(Number::Integer(i64::MAX).to_string(&format), "9223372036854775807");
}

#[test]
fn to_string_writes_floats_as_the_formatter_does() {
    assert_eq!(Number::Float(0.534f64.to_bits()).to_string(&format), "0.534");
    assert_eq!(Number::Float(0.0022f64.to_bits()).to_string(&format), "0.0022");
    assert_eq!(Number::Float(1e20f64.to_bits()).to_string(&format), "100000000000000000000");
}

/// A small generator of numbers that look random.
struct Sequence(u64);

impl Sequence {
    fn next(&mut self) -> u64 {
        self.0 ^= self.0 << 13;
        self.0 ^= self.0 >> 7;
        self.0 ^= self.0 << 17;
        self.0
    }
}

#[test]
fn two_to_the_sixty_fourth_stays_a_float() {
    let float = 18446744073709551616.0f64;
    assert_eq!(Number::from_float_bits(float.to_bits()), Number::Float(float.to_bits()));
    assert_eq!(Number::from_float_bits((-float).to_bits()), Number::Float((-float).to_bits()));
    let below = f64::from_bits(float.to_bits() - 1);
    assert_eq!(
        Number::from_float_bits(below.to_bits()),
        Number::UnsignedInteger(18446744073709549568)
    );
    let least = -9223372036854775808.0f64;
    assert_eq!(Number::from_float_bits(least.to_bits()), Number::Integer(i64::MIN));
}

/// The classification of a literal, computed with the standard parsers.
fn by_standard_parsers(text: &str) -> Option<Number> {
    if let Ok(integer) = text.parse::<u64>() {
        Some(Number::UnsignedInteger(integer))
    } else if let Ok(integer) = text.parse::<i64>() {
        Some(Number::Integer(integer))
    } else if let Ok(float) = text.parse::<f64>() {
        Some(by_floating_point(float))
    } else {
        None
    }
}

#[test]
fn from_float_bits_agrees_on_many_bit_patterns() {
    let mut sequence = Sequence(0x9E37_79B9_7F4A_7C15);
    for _ in 0..200_000 {
        let bits = sequence.next();
        let float = f64::from_bits(bits);
        assert_eq!(Number::from_float_bits(bits), by_floating_point(float), "{:#x}", bits);
    }
}

#[test]
fn from_float_bits_agrees_on_whole_values() {
    let mut sequence = Sequence(0x2545_F491_4F6C_DD1D);
    for _ in 0..100_000 {
        let integer = sequence.next() >> (sequence.next() % 64);
        for float in [integer as f64, -(integer as f64), integer as f64 + 0.5] {
            assert_eq!(
                Number::from_float_bits(float.to_bits()),
                by_floating_point(float),
                "{}",
                float
            );
        }
    }
}

#[test]
fn parse_agrees_with_the_standard_parsers() {
    let alphabet: Vec<char> = "0123456789+-.eE".chars().collect();
    let mut sequence = Sequence(0xD1B5_4A32_D192_ED03);
    for _ in 0..100_000 {
        let length = sequence.next() % 8;
        let mut text = String::new();
        for _ in 0..length {
            let pick = sequence.next() % 40;
            let index = if pick < 30 { pick % 10 } else { 10 + pick % 5 };
            text.push(alphabet[index as usize]);
        }
        assert_eq!(classify(&text), by_standard_parsers(&text), "{:?}", text);
        assert_eq!(
            Number::integer(&text),
            by_standard_parsers(&text).filter(|_| text.parse::<i64>().is_ok() || text.parse::<u64>().is_ok()),
            "{:?}",
            text
        );
    }
}

#[test]
fn parse_agrees_with_the_standard_parsers_near_the_bounds() {
    let bounds: [i128; 6] = [
        0,
        i64::MAX as i128,
        i64::MIN as i128,
        u64::MAX as i128,
        u32::MAX as i128,
        -(u64::MAX as i128),
    ];
    for bound in bounds {
        for offset in -3i128..=3 {
            let value = bound + offset;
            for text in [
                value.to_string(),
                format!("+{}", value),
                format!("0{}", value),
                format!("{}.0", value),
                format!("{}e0", value),
                format!("{}0", value),
            ] {
                assert_eq!(classify(&text), by_standard_parsers(&text), "{:?}", text);
            }
        }
    }
}

#[test]
fn to_string_agrees_with_the_standard_formatter() {
    let mut sequence = Sequence(0x1234_5678_9ABC_DEF1);
    for _ in 0..50_000 {
        let value = sequence.next() >> (sequence.next() % 64);
        assert_eq!(Number::UnsignedInteger(value).to_string(&format), value.to_string());
        let signed = value as i64;
        assert_eq!(Number::Integer(signed).to_string(&format), signed.to_string());
    }
}
