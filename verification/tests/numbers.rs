use lox::number::{
    arithmetic, decimal_value, equal, greater, greater_or_equal, has_literal_shape, is_nan,
    is_whole, less, less_or_equal, literal_limit, negate, value_or_zero, Arithmetic,
};

const SAMPLES: [f64; 24] = [
    0.0,
    -0.0,
    1.0,
    -1.0,
    2.0,
    3.0,
    0.1,
    0.2,
    0.3,
    1.5,
    -2.25,
    42.0,
    3.14,
    1e10,
    1e-10,
    1e300,
    -1e300,
    1e-320,
    5e-324,
    1.7976931348623157e308,
    f64::INFINITY,
    f64::NEG_INFINITY,
    f64::NAN,
    123456789.123456789,
];

fn same_number(actual: u64, expected: f64) -> bool {
    if expected.is_nan() {
        f64::from_bits(actual).is_nan()
    } else {
        actual == expected.to_bits()
    }
}

#[test]
fn addition_agrees_with_the_hardware() {
    for a in SAMPLES {
        for b in SAMPLES {
            let sum = arithmetic(Arithmetic::Add, a.to_bits(), b.to_bits());
            assert!(same_number(sum, a + b), "{a} + {b}");
        }
    }
}

#[test]
fn subtraction_agrees_with_the_hardware() {
    for a in SAMPLES {
        for b in SAMPLES {
            let difference = arithmetic(Arithmetic::Subtract, a.to_bits(), b.to_bits());
            assert!(same_number(difference, a - b), "{a} - {b}");
        }
    }
}

#[test]
fn multiplication_agrees_with_the_hardware() {
    for a in SAMPLES {
        for b in SAMPLES {
            let product = arithmetic(Arithmetic::Multiply, a.to_bits(), b.to_bits());
            assert!(same_number(product, a * b), "{a} * {b}");
        }
    }
}

#[test]
fn division_agrees_with_the_hardware() {
    for a in SAMPLES {
        for b in SAMPLES {
            let quotient = arithmetic(Arithmetic::Divide, a.to_bits(), b.to_bits());
            assert!(same_number(quotient, a / b), "{a} / {b}");
        }
    }
}

#[test]
fn exact_sums_and_products() {
    assert_eq!(arithmetic(Arithmetic::Add, 1f64.to_bits(), 2f64.to_bits()), 3f64.to_bits());
    assert_eq!(
        arithmetic(Arithmetic::Add, 0.1f64.to_bits(), 0.2f64.to_bits()),
        0.30000000000000004f64.to_bits()
    );
    assert_eq!(arithmetic(Arithmetic::Subtract, 1f64.to_bits(), 2f64.to_bits()), (-1f64).to_bits());
    assert_eq!(arithmetic(Arithmetic::Multiply, 6f64.to_bits(), 7f64.to_bits()), 42f64.to_bits());
    assert_eq!(arithmetic(Arithmetic::Divide, 1f64.to_bits(), 4f64.to_bits()), 0.25f64.to_bits());
}

#[test]
fn division_by_zero_gives_infinities_and_nan() {
    let one = 1f64.to_bits();
    let zero = 0f64.to_bits();
    let minus_zero = (-0f64).to_bits();
    assert_eq!(arithmetic(Arithmetic::Divide, one, zero), f64::INFINITY.to_bits());
    assert_eq!(arithmetic(Arithmetic::Divide, one, minus_zero), f64::NEG_INFINITY.to_bits());
    assert!(is_nan(arithmetic(Arithmetic::Divide, zero, zero)));
}

#[test]
fn comparisons_agree_with_the_hardware() {
    for a in SAMPLES {
        for b in SAMPLES {
            let (x, y) = (a.to_bits(), b.to_bits());
            assert_eq!(equal(x, y), a == b, "{a} == {b}");
            assert_eq!(less(x, y), a < b, "{a} < {b}");
            assert_eq!(less_or_equal(x, y), a <= b, "{a} <= {b}");
            assert_eq!(greater(x, y), a > b, "{a} > {b}");
            assert_eq!(greater_or_equal(x, y), a >= b, "{a} >= {b}");
        }
    }
}

#[test]
fn negation_flips_the_sign() {
    for a in SAMPLES {
        assert!(same_number(negate(a.to_bits()), -a));
        assert_eq!(negate(negate(a.to_bits())), a.to_bits());
    }
    assert_eq!(negate(0f64.to_bits()), (-0f64).to_bits());
}

#[test]
fn nan_is_told_apart() {
    assert!(is_nan(f64::NAN.to_bits()));
    assert!(is_nan(0x7ff0_0000_0000_0001));
    assert!(is_nan(0xfff8_0000_0000_0000));
    assert!(!is_nan(f64::INFINITY.to_bits()));
    assert!(!is_nan(f64::NEG_INFINITY.to_bits()));
    assert!(!is_nan(0));
    assert!(!equal(f64::NAN.to_bits(), f64::NAN.to_bits()));
}

#[test]
fn zeros_are_equal() {
    assert!(equal(0f64.to_bits(), (-0f64).to_bits()));
    assert!(!less((-0f64).to_bits(), 0f64.to_bits()));
    assert!(less_or_equal((-0f64).to_bits(), 0f64.to_bits()));
}

#[test]
fn literals_read_as_the_nearest_number() {
    for text in [
        "0",
        "1",
        "42",
        "007",
        "3.14",
        "0.1",
        "0.5",
        "10.25",
        "123456789012345678901234567890",
        "0.000000000000000000000000000001",
        "1.7976931348623157",
        "179769313486231570000000000000000000000000000000000000000000000000000000000000000000000000000000000000000000000000000000000000000000000000000000000000000000000000000000000000000000000000000000000000000000000000000000000000000000000000000000000000000000000000000000000000000000000000000000000000000000000000000000000000000",
        "9007199254740993",
        "0.30000000000000004",
        "2.2250738585072014",
        "4.35",
        "1234.5678",
    ] {
        let expected: f64 = text.parse().unwrap();
        assert_eq!(decimal_value(text), Some(expected.to_bits()), "{text}");
    }
}

#[test]
fn literal_that_is_too_large_reads_as_infinity() {
    let text = "1".to_string() + &"0".repeat(400);
    assert_eq!(decimal_value(&text), Some(f64::INFINITY.to_bits()));
}

#[test]
fn texts_that_are_no_literals_are_not_read() {
    for text in ["", ".", "1.", ".5", "1.2.3", "1e5", "-1", "+1", "0x10", "inf", "nan", "1 ", " 1", "1_000", "١٢٣"] {
        assert!(!has_literal_shape(text), "{text:?}");
        assert_eq!(decimal_value(text), None, "{text:?}");
    }
}

#[test]
fn literal_shapes() {
    for text in ["0", "12", "1.0", "0.5", "123.456", "000.000"] {
        assert!(has_literal_shape(text), "{text}");
    }
}

#[test]
fn long_literals_are_read() {
    let huge = "1".repeat(2_000_000);
    assert!(has_literal_shape(&huge));
    assert_eq!(decimal_value(&huge), Some(f64::INFINITY.to_bits()));
    let long = "1".repeat(300) + "." + &"5".repeat(300);
    let expected: f64 = long.parse().unwrap();
    assert_eq!(decimal_value(&long), Some(expected.to_bits()));
    let tiny = "0.".to_string() + &"0".repeat(2_000_000) + "1";
    assert_eq!(decimal_value(&tiny), Some(0f64.to_bits()));
}

#[test]
fn long_significands_with_a_small_exponent_are_read() {
    for digits in [20usize, 400, 3000] {
        let ones = "1.".to_string() + &"1".repeat(digits);
        let expected: f64 = ones.parse().unwrap();
        assert_eq!(expected, 1.1111111111111112);
        assert_eq!(decimal_value(&ones), Some(expected.to_bits()), "{digits} digits");
        let nines = "0.".to_string() + &"9".repeat(digits);
        let expected: f64 = nines.parse().unwrap();
        assert_eq!(expected, 1.0);
        assert_eq!(decimal_value(&nines), Some(expected.to_bits()), "{digits} digits");
        let halfway = "9007199254740993.".to_string() + &"0".repeat(digits) + "1";
        let expected: f64 = halfway.parse().unwrap();
        assert_eq!(expected, 9007199254740994.0);
        assert_eq!(decimal_value(&halfway), Some(expected.to_bits()), "{digits} digits");
        let whole = "1234567890".repeat(30) + "." + &"7".repeat(digits);
        let expected: f64 = whole.parse().unwrap();
        assert_eq!(decimal_value(&whole), Some(expected.to_bits()), "{digits} digits");
    }
}

#[test]
fn literal_limit_is_what_the_integers_can_count() {
    let by_size = usize::MAX / 196;
    let expected = if by_size < (1usize << 28) { by_size } else { 1usize << 28 };
    assert_eq!(literal_limit(), expected);
    assert!(196 * literal_limit() / 59 + 1 < (1usize << 30));
}

#[test]
fn literal_over_the_limit_is_not_read() {
    let at_limit = "7".to_string() + &"0".repeat(literal_limit() - 1);
    assert_eq!(decimal_value(&at_limit), Some(f64::INFINITY.to_bits()));
    let over = at_limit + "0";
    let read = decimal_value(&over);
    assert_eq!(read, None);
    assert_eq!(value_or_zero(read), 0f64.to_bits());
}

#[test]
fn division_by_zero_follows_the_signs() {
    let inf = f64::INFINITY;
    for (a, b, expected) in [
        (1.0, 0.0, inf),
        (1.0, -0.0, -inf),
        (-1.0, 0.0, -inf),
        (-1.0, -0.0, inf),
        (5e-324, 0.0, inf),
        (-5e-324, 0.0, -inf),
        (1e308, -0.0, -inf),
        (inf, 0.0, inf),
        (inf, -0.0, -inf),
        (-inf, 0.0, -inf),
        (-inf, -0.0, inf),
    ] {
        let a: f64 = a;
        let b: f64 = b;
        let expected: f64 = expected;
        assert_eq!(
            arithmetic(Arithmetic::Divide, a.to_bits(), b.to_bits()),
            expected.to_bits(),
            "{a} / {b}"
        );
    }
    for (a, b) in [(0.0, 0.0), (-0.0, 0.0), (0.0, -0.0), (f64::NAN, 0.0), (f64::NAN, -0.0)] {
        let a: f64 = a;
        let b: f64 = b;
        assert!(is_nan(arithmetic(Arithmetic::Divide, a.to_bits(), b.to_bits())), "{a} / {b}");
    }
    assert!(is_nan(arithmetic(Arithmetic::Divide, 0x7ff0_0000_0000_0001, 0)));
    assert!(is_nan(arithmetic(Arithmetic::Divide, 0xfff4_0000_0000_0000, 0x8000_0000_0000_0000)));
}

#[test]
fn whole_numbers_are_told_apart() {
    for a in SAMPLES {
        assert_eq!(is_whole(a.to_bits()), a.fract() == 0.0, "{a}");
        assert_eq!(is_whole((-a).to_bits()), a.fract() == 0.0, "-{a}");
    }
    for (a, whole) in [
        (0.0, true),
        (-0.0, true),
        (1.0, true),
        (0.5, false),
        (0.9999999999999999, false),
        (1.0000000000000002, false),
        (2.5, false),
        (4503599627370495.5, false),
        (4503599627370496.0, true),
        (4503599627370497.0, true),
        (9007199254740992.0, true),
        (1e21, true),
        (1e300, true),
        (f64::MAX, true),
        (f64::MIN_POSITIVE, false),
        (5e-324, false),
        (f64::INFINITY, false),
        (f64::NEG_INFINITY, false),
        (f64::NAN, false),
    ] {
        let a: f64 = a;
        assert_eq!(is_whole(a.to_bits()), whole, "{a}");
    }
    let mut n = 1.0f64;
    for _ in 0..1100 {
        assert!(is_whole(n.to_bits()) || n.is_infinite());
        assert_eq!(is_whole((n + 0.5).to_bits()), (n + 0.5).fract() == 0.0, "{n} + 0.5");
        assert_eq!(is_whole((n / 3.0).to_bits()), (n / 3.0).fract() == 0.0, "{n} / 3");
        n *= 2.0;
    }
}

#[test]
fn a_missing_value_counts_as_zero() {
    assert_eq!(value_or_zero(None), 0);
    assert_eq!(value_or_zero(Some(7)), 7);
    assert_eq!(value_or_zero(Some(0)), 0);
}
