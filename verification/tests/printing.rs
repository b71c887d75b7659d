use four_fours::search::{BinaryOp, Equation, UnaryOp};
use four_fours::{BinaryOpPrinter, Printer, UnaryOpPrinter};

fn negate(v: u64) -> Option<u64> {
    Some((-f64::from_bits(v)).to_bits())
}

fn sqrt(v: u64) -> Option<u64> {
    let x = f64::from_bits(v);
    if x < 0.0 {
        None
    } else {
        Some(x.sqrt().to_bits())
    }
}

fn identity(v: u64) -> Option<u64> {
    Some(v)
}

fn add(l: u64, r: u64) -> Option<u64> {
    Some((f64::from_bits(l) + f64::from_bits(r)).to_bits())
}

fn sub(l: u64, r: u64) -> Option<u64> {
    Some((f64::from_bits(l) - f64::from_bits(r)).to_bits())
}

fn mul(l: u64, r: u64) -> Option<u64> {
    Some((f64::from_bits(l) * f64::from_bits(r)).to_bits())
}

fn pow(l: u64, r: u64) -> Option<u64> {
    Some(f64::from_bits(l).powf(f64::from_bits(r)).to_bits())
}

fn unary(token: u8, rule: fn(u64) -> Option<u64>) -> UnaryOp<fn(u64) -> Option<u64>> {
    UnaryOp::new(token, 1, rule)
}

fn binary(token: u8, rule: fn(u64, u64) -> Option<u64>) -> BinaryOp<fn(u64, u64) -> Option<u64>> {
    BinaryOp::new(token, 1, rule)
}

fn printer() -> Printer {
    Printer::new(
        vec![
            UnaryOpPrinter::new(0x00, "-", "", 3, true),
            UnaryOpPrinter::new(0x01, "√", "", 1, true),
            UnaryOpPrinter::new(0x02, "", "!", 2, true),
        ],
        vec![
            BinaryOpPrinter::new(0x10, "", "+", "", 6, true, true, true, true),
            BinaryOpPrinter::new(0x11, "", "-", "", 6, true, false, true, true),
            BinaryOpPrinter::new(0x12, "", "*", "", 5, true, true, true, true),
            BinaryOpPrinter::new(0x13, "", "/", "", 5, true, false, true, true),
            BinaryOpPrinter::new(0x14, "", "^", "", 3, false, true, true, true),
        ],
        "(",
        ")",
    )
}

fn lit(digits: &str) -> Equation {
    Equation::from_numbers(digits)
}

fn un(token: u8, rule: fn(u64) -> Option<u64>, e: &Equation) -> Equation {
    Equation::apply_unary(e, &unary(token, rule)).unwrap()
}

fn bin(token: u8, rule: fn(u64, u64) -> Option<u64>, l: &Equation, r: &Equation) -> Equation {
    Equation::apply_binary(l, r, &binary(token, rule)).unwrap()
}

#[test]
fn literal_is_printed_as_its_digits() {
    assert_eq!(printer().print(&lit("4")), "4");
    assert_eq!(printer().print(&lit("4444")), "4444");
    assert_eq!(printer().print(&lit("0123456789")), "0123456789");
}

#[test]
fn sum_of_two_digits_needs_no_parentheses() {
    let e = bin(0x10, add, &lit("4"), &lit("4"));
    assert_eq!(e.tokens, vec![0xe4, 0xe4, 0x10]);
    assert_eq!(printer().print(&e), "4+4");
}

#[test]
fn negation_of_a_literal_is_not_wrapped() {
    let e = un(0x00, negate, &lit("4"));
    assert_eq!(printer().print(&e), "-4");
}

#[test]
fn negation_of_a_sum_is_wrapped() {
    let sum = bin(0x10, add, &lit("4"), &lit("4"));
    let e = un(0x00, negate, &sum);
    assert_eq!(printer().print(&e), "-(4+4)");
}

#[test]
fn operand_of_equal_precedence_is_wrapped_under_a_unary_operator() {
    let power = bin(0x14, pow, &lit("4"), &lit("4"));
    let e = un(0x00, negate, &power);
    assert_eq!(printer().print(&e), "-(4^4)");
    let twice = un(0x00, negate, &un(0x00, negate, &lit("4")));
    assert_eq!(printer().print(&twice), "-(-4)");
}

#[test]
fn tighter_operand_is_not_wrapped_under_a_unary_operator() {
    let root = un(0x01, sqrt, &lit("4"));
    let e = un(0x00, negate, &root);
    assert_eq!(printer().print(&e), "-√4");
    let fact = un(0x02, identity, &root);
    assert_eq!(printer().print(&fact), "√4!");
    let root_of_fact = un(0x01, sqrt, &un(0x02, identity, &lit("4")));
    assert_eq!(printer().print(&root_of_fact), "√(4!)");
}

#[test]
fn unary_operator_without_the_flag_never_wraps() {
    let p = Printer::new(
        vec![UnaryOpPrinter::new(0x00, "abs ", "", 3, false)],
        vec![BinaryOpPrinter::new(0x10, "", "+", "", 6, true, true, true, true)],
        "(",
        ")",
    );
    let sum = bin(0x10, add, &lit("4"), &lit("4"));
    assert_eq!(p.print(&un(0x00, negate, &sum)), "abs 4+4");
}

#[test]
fn left_associative_operator_wraps_only_on_the_right() {
    let left = bin(0x11, sub, &bin(0x11, sub, &lit("4"), &lit("3")), &lit("2"));
    assert_eq!(printer().print(&left), "4-3-2");
    let right = bin(0x11, sub, &lit("4"), &bin(0x11, sub, &lit("3"), &lit("2")));
    assert_eq!(printer().print(&right), "4-(3-2)");
}

#[test]
fn right_associative_operator_wraps_only_on_the_left() {
    let left = bin(0x14, pow, &bin(0x14, pow, &lit("4"), &lit("3")), &lit("2"));
    assert_eq!(printer().print(&left), "(4^3)^2");
    let right = bin(0x14, pow, &lit("4"), &bin(0x14, pow, &lit("3"), &lit("2")));
    assert_eq!(printer().print(&right), "4^3^2");
}

#[test]
fn operator_that_associates_both_ways_wraps_on_neither_side() {
    let left = bin(0x10, add, &bin(0x10, add, &lit("4"), &lit("3")), &lit("2"));
    assert_eq!(printer().print(&left), "4+3+2");
    let right = bin(0x10, add, &lit("4"), &bin(0x10, add, &lit("3"), &lit("2")));
    assert_eq!(printer().print(&right), "4+3+2");
}

#[test]
fn looser_operand_is_wrapped_and_tighter_is_not() {
    let product_of_sums = bin(
        0x12,
        mul,
        &bin(0x10, add, &lit("1"), &lit("2")),
        &bin(0x10, add, &lit("3"), &lit("4")),
    );
    assert_eq!(printer().print(&product_of_sums), "(1+2)*(3+4)");
    let sum_of_products = bin(
        0x10,
        add,
        &bin(0x12, mul, &lit("1"), &lit("2")),
        &bin(0x12, mul, &lit("3"), &lit("4")),
    );
    assert_eq!(printer().print(&sum_of_products), "1*2+3*4");
}

#[test]
fn binary_operator_without_the_flags_never_wraps() {
    let p = Printer::new(
        vec![],
        vec![
            BinaryOpPrinter::new(0x10, "", "+", "", 6, true, true, true, true),
            BinaryOpPrinter::new(0x12, "", "*", "", 5, false, false, false, false),
        ],
        "(",
        ")",
    );
    let e = bin(
        0x12,
        mul,
        &bin(0x10, add, &lit("1"), &lit("2")),
        &bin(0x12, mul, &lit("3"), &lit("4")),
    );
    assert_eq!(p.print(&e), "1+2*3*4");
}

#[test]
fn prefix_suffix_and_parentheses_are_taken_from_the_printer() {
    let p = Printer::new(
        vec![UnaryOpPrinter::new(0x00, "neg<", ">", 3, true)],
        vec![BinaryOpPrinter::new(0x10, "add{", " , ", "}", 6, false, false, true, true)],
        "[[",
        "]]",
    );
    let sum = bin(0x10, add, &lit("12"), &lit("3"));
    assert_eq!(p.print(&sum), "add{12 , 3}");
    let nested = bin(0x10, add, &sum, &lit("4"));
    assert_eq!(p.print(&nested), "add{[[add{12 , 3}]] , 4}");
    assert_eq!(p.print(&un(0x00, negate, &nested)), "neg<[[add{[[add{12 , 3}]] , 4}]]>");
}

#[test]
fn first_operator_with_the_token_is_the_one_that_writes() {
    let p = Printer::new(
        vec![UnaryOpPrinter::new(0x00, "-", "", 3, true), UnaryOpPrinter::new(0x00, "~", "", 3, true)],
        vec![
            BinaryOpPrinter::new(0x00, "", "?", "", 6, true, true, true, true),
            BinaryOpPrinter::new(0x10, "", "+", "", 6, true, true, true, true),
            BinaryOpPrinter::new(0x10, "", "#", "", 6, true, true, true, true),
        ],
        "(",
        ")",
    );
    assert_eq!(p.print(&un(0x00, negate, &lit("4"))), "-4");
    assert_eq!(p.print(&bin(0x10, add, &lit("4"), &lit("4"))), "4+4");
}

#[test]
fn try_print_agrees_with_print() {
    let e = un(0x00, negate, &bin(0x10, add, &lit("4"), &lit("4")));
    assert_eq!(printer().try_print(&e), Some(String::from("-(4+4)")));
}

#[test]
fn unknown_token_cannot_be_printed() {
    let e = Equation { tokens: vec![0xe4, 0x55], cost: 0, value: 0 };
    assert_eq!(printer().try_print(&e), None);
    let reserved = Equation { tokens: vec![0xea], cost: 0, value: 0 };
    assert_eq!(printer().try_print(&reserved), None);
    let reserved = Equation { tokens: vec![0xe4, 0xff], cost: 0, value: 0 };
    assert_eq!(printer().try_print(&reserved), None);
}

#[test]
fn missing_operand_cannot_be_printed() {
    let p = printer();
    assert_eq!(p.try_print(&Equation { tokens: vec![0x00], cost: 0, value: 0 }), None);
    assert_eq!(p.try_print(&Equation { tokens: vec![0xe4, 0x10], cost: 0, value: 0 }), None);
    assert_eq!(p.try_print(&Equation { tokens: vec![0x10], cost: 0, value: 0 }), None);
    assert_eq!(p.try_print(&Equation { tokens: vec![0xf4], cost: 0, value: 0 }), None);
}

#[test]
fn not_exactly_one_expression_cannot_be_printed() {
    let p = printer();
    assert_eq!(p.try_print(&Equation { tokens: vec![], cost: 0, value: 0 }), None);
    assert_eq!(p.try_print(&Equation { tokens: vec![0xe4, 0xe4], cost: 0, value: 0 }), None);
    assert_eq!(
        p.try_print(&Equation { tokens: vec![0xe4, 0xe4, 0xe4, 0x10], cost: 0, value: 0 }),
        None
    );
}

#[test]
fn digit_that_continues_is_added_to_the_last_part() {
    let p = printer();
    let e = Equation { tokens: vec![0xe1, 0xf2, 0xf3, 0xe4, 0xf5, 0x10], cost: 1, value: 0 };
    assert_eq!(p.try_print(&e), Some(String::from("123+45")));
}
