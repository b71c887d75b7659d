use four_fours::search::number::{exact_bits, integer_bits, nearest_bits};
use four_fours::search::{BinaryOp, Equation, UnaryOp};

fn bits(x: f64) -> u64 {
    x.to_bits()
}

fn negate(v: u64) -> Option<u64> {
    Some((-f64::from_bits(v)).to_bits())
}

fn sqrt(v: u64) -> Option<u64> {
    let x = f64::from_bits(v);
    if x < 0.0 {
        None
    } else {
        Some(x.sqrt().to_bits())
    }
}

fn add(l: u64, r: u64) -> Option<u64> {
    Some((f64::from_bits(l) + f64::from_bits(r)).to_bits())
}

fn div(l: u64, r: u64) -> Option<u64> {
    let (x, y) = (f64::from_bits(l), f64::from_bits(r));
    if y == 0.0 {
        None
    } else {
        Some((x / y).to_bits())
    }
}

#[test]
fn integer_bits_are_those_of_the_number() {
    let mut n: u32 = 0;
    while n < 100_000 {
        assert_eq!(integer_bits(n), f64::from(n).to_bits(), "{}", n);
        n += 1;
    }
    for n in [
        0x7fff_ffffu32,
        0x7fff_fffe,
        0x4000_0000,
        0x3fff_ffff,
        0x8000_0000,
        0xffff_ffff,
        123_456_789,
        1 << 24,
        (1 << 24) + 1,
    ] {
        assert_eq!(integer_bits(n), f64::from(n).to_bits(), "{}", n);
    }
}

#[test]
fn integer_bits_of_small_numbers() {
    assert_eq!(integer_bits(0), 0);
    assert_eq!(integer_bits(1), 0x3ff0_0000_0000_0000);
    assert_eq!(integer_bits(2), 0x4000_0000_0000_0000);
    assert_eq!(integer_bits(3), 0x4008_0000_0000_0000);
    assert_eq!(integer_bits(4), 0x4010_0000_0000_0000);
    assert_eq!(integer_bits(44), 0x4046_0000_0000_0000);
}

#[test]
fn literal_of_one_digit() {
    let e = Equation::from_numbers("4");
    assert_eq!(e.tokens, vec![0xe4]);
    assert_eq!(e.cost, 0);
    assert_eq!(e.value, bits(4.0));
}

#[test]
fn literal_of_several_digits() {
    let e = Equation::from_numbers("4407");
    assert_eq!(e.tokens, vec![0xe4, 0xf4, 0xf0, 0xf7]);
    assert_eq!(e.cost, 0);
    assert_eq!(e.value, bits(4407.0));
}

#[test]
fn literal_with_leading_zeros() {
    let e = Equation::from_numbers("007");
    assert_eq!(e.tokens, vec![0xe0, 0xf0, 0xf7]);
    assert_eq!(e.value, bits(7.0));
}

#[test]
fn literal_beyond_thirty_two_bits() {
    let e = Equation::from_numbers("2147483647");
    assert_eq!(e.value, bits(2147483647.0));
    assert_eq!(e.tokens.len(), 10);
    let e = Equation::from_numbers("4444444444");
    assert_eq!(e.value, bits(4444444444.0));
    assert_eq!(e.cost, 0);
    assert_eq!(e.tokens, vec![0xe4, 0xf4, 0xf4, 0xf4, 0xf4, 0xf4, 0xf4, 0xf4, 0xf4, 0xf4]);
}

#[test]
fn literal_of_more_bits_than_a_value_holds() {
    // 2^53 + 1 lies in the middle of two values: the even one is taken.
    assert_eq!(Equation::from_numbers("9007199254740992").value, bits(9007199254740992.0));
    assert_eq!(Equation::from_numbers("9007199254740993").value, bits(9007199254740992.0));
    assert_eq!(Equation::from_numbers("9007199254740994").value, bits(9007199254740994.0));
    assert_eq!(Equation::from_numbers("9007199254740995").value, bits(9007199254740996.0));
    assert_eq!(Equation::from_numbers("9007199254740996").value, bits(9007199254740996.0));
    assert_eq!(Equation::from_numbers("9007199254740997").value, bits(9007199254740996.0));
    assert_eq!(Equation::from_numbers("90071992547409930").value, bits(90071992547409936.0));
    let long = "123456789012345678901234567890123456789012345678901234567890";
    let e = Equation::from_numbers(long);
    assert_eq!(e.value, long.parse::<f64>().unwrap().to_bits());
    assert_eq!(e.tokens.len(), 60);
    assert_eq!(e.cost, 0);
}

#[test]
fn nearest_bits_are_those_of_the_nearest_number() {
    let same = |text: &str| {
        assert_eq!(nearest_bits(text), text.parse::<f64>().unwrap().to_bits(), "{}", text);
    };
    for n in 0..3000u32 {
        same(&n.to_string());
        same(&format!("000{}", n));
    }
    for k in 0..=127u32 {
        let n: u128 = 1 << k;
        same(&n.to_string());
        same(&(n - 1).to_string());
        same(&(n + 1).to_string());
        same(&(n / 3).to_string());
        same(&(n / 7 * 5).to_string());
    }
    // In the middle of two values, and just below and above the middle, with
    // an even and with an odd value below.
    for k in 53..=126u32 {
        let ulp: u128 = 1 << (k - 52);
        for q in [0u128, 1, 2, 3, (1 << 52) - 2, (1 << 52) - 1] {
            let middle = (1u128 << k) + q * ulp + ulp / 2;
            same(&middle.to_string());
            same(&(middle - 1).to_string());
            same(&(middle + 1).to_string());
        }
    }
    // Powers of ten, and the powers of two as far as values go.
    let mut ten = String::from("1");
    for _ in 0..330 {
        same(&ten);
        same(&format!("{}1", ten));
        ten.push('0');
    }
    let mut x = 1f64;
    for _ in 0..1023 {
        x *= 2.0;
        let text = format!("{:.0}", x);
        same(&text);
        let below = format!("{}", text.trim_end_matches('0'));
        same(&below);
        same(&format!("{}9", text));
    }
}

#[test]
fn nearest_bits_at_the_end_of_the_values() {
    let greatest = format!("{:.0}", f64::MAX);
    assert_eq!(greatest.len(), 309);
    assert_eq!(nearest_bits(&greatest), f64::MAX.to_bits());
    // One more digit is beyond all values.
    assert_eq!(nearest_bits(&format!("{}0", greatest)), f64::INFINITY.to_bits());
    assert_eq!(nearest_bits(&"9".repeat(400)), f64::INFINITY.to_bits());
    assert_eq!(nearest_bits(&"9".repeat(5000)), 0x7ff0_0000_0000_0000);
    // 2^1024 is written as the greatest value with its first digits raised.
    let beyond = greatest.replacen("17976931348623157", "17976931348623159", 1);
    assert_eq!(nearest_bits(&beyond), beyond.parse::<f64>().unwrap().to_bits());
    assert_eq!(nearest_bits(&beyond), f64::INFINITY.to_bits());
    // Between the greatest value and the middle to 2^1024 the greatest value
    // is the nearest.
    let near = greatest.replacen("179769313486231570", "179769313486231575", 1);
    assert_eq!(nearest_bits(&near), near.parse::<f64>().unwrap().to_bits());
    assert_eq!(nearest_bits(&near), f64::MAX.to_bits());
    let far = greatest.replacen("179769313486231570", "179769313486231585", 1);
    assert_eq!(nearest_bits(&far), far.parse::<f64>().unwrap().to_bits());
    assert_eq!(Equation::from_numbers(&far).value, f64::INFINITY.to_bits());
}

#[test]
fn exact_bits_are_those_of_the_number() {
    for n in [0u64, 1, 2, 3, 4_444_444_444, (1 << 53) - 1, (1 << 52), (1 << 52) + 1, 1 << 32] {
        assert_eq!(exact_bits(n), (n as f64).to_bits(), "{}", n);
    }
}

#[test]
fn unary_operator_extends_an_equation() {
    let op = UnaryOp::new(0x00, 2, negate as fn(u64) -> Option<u64>);
    let four = Equation::from_numbers("4");
    let e = Equation::apply_unary(&four, &op).unwrap();
    assert_eq!(e.tokens, vec![0xe4, 0x00]);
    assert_eq!(e.cost, 2);
    assert_eq!(e.value, bits(-4.0));
    let twice = Equation::apply_unary(&e, &op).unwrap();
    assert_eq!(twice.tokens, vec![0xe4, 0x00, 0x00]);
    assert_eq!(twice.cost, 4);
    assert_eq!(twice.value, bits(4.0));
}

#[test]
fn unary_operator_out_of_its_domain_gives_nothing() {
    let neg = UnaryOp::new(0x00, 2, negate as fn(u64) -> Option<u64>);
    let root = UnaryOp::new(0x01, 4, sqrt as fn(u64) -> Option<u64>);
    let four = Equation::from_numbers("4");
    let minus = Equation::apply_unary(&four, &neg).unwrap();
    assert!(Equation::apply_unary(&minus, &root).is_none());
    let two = Equation::apply_unary(&four, &root).unwrap();
    assert_eq!(two.value, bits(2.0));
    assert_eq!(two.cost, 4);
}

#[test]
fn binary_operator_combines_left_then_right() {
    let plus = BinaryOp::new(0x10, 1, add as fn(u64, u64) -> Option<u64>);
    let left = Equation::from_numbers("12");
    let right = Equation::from_numbers("3");
    let e = Equation::apply_binary(&left, &right, &plus).unwrap();
    assert_eq!(e.tokens, vec![0xe1, 0xf2, 0xe3, 0x10]);
    assert_eq!(e.cost, 1);
    assert_eq!(e.value, bits(15.0));
    let again = Equation::apply_binary(&e, &left, &plus).unwrap();
    assert_eq!(again.tokens, vec![0xe1, 0xf2, 0xe3, 0x10, 0xe1, 0xf2, 0x10]);
    assert_eq!(again.cost, 2);
    assert_eq!(again.value, bits(27.0));
}

#[test]
fn division_by_zero_gives_no_candidate() {
    let over = BinaryOp::new(0x13, 4, div as fn(u64, u64) -> Option<u64>);
    let zero = Equation::from_numbers("0");
    assert_eq!(zero.value, bits(0.0));
    for left in ["0", "1", "4", "44", "2147483647"] {
        let l = Equation::from_numbers(left);
        assert!(Equation::apply_binary(&l, &zero, &over).is_none());
        assert!(over.apply(l.value, zero.value).is_none());
    }
    let four = Equation::from_numbers("4");
    let quotient = Equation::apply_binary(&zero, &four, &over).unwrap();
    assert_eq!(quotient.value, bits(0.0));
    assert_eq!(quotient.cost, 4);
}

#[test]
fn operators_keep_what_they_were_made_with() {
    let neg = UnaryOp::new(0x07, 9, negate as fn(u64) -> Option<u64>);
    assert_eq!(neg.token, 0x07);
    assert_eq!(neg.cost, 9);
    assert_eq!(neg.apply(bits(1.5)), Some(bits(-1.5)));
    let plus = BinaryOp::new(0x17, 5, add as fn(u64, u64) -> Option<u64>);
    assert_eq!(plus.token, 0x17);
    assert_eq!(plus.cost, 5);
    assert_eq!(plus.apply(bits(1.5), bits(2.25)), Some(bits(3.75)));
}

#[test]
fn clone_of_an_equation_is_the_same_equation() {
    let e = Equation::from_numbers("44");
    let c = e.clone();
    assert_eq!(c.tokens, e.tokens);
    assert_eq!(c.cost, e.cost);
    assert_eq!(c.value, e.value);
}
