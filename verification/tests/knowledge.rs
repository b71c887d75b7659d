use four_fours::search::{Equation, Knowledge, Memo, WrappedValue};

fn bits(x: f64) -> u64 {
    x.to_bits()
}

fn equation(tokens: Vec<u8>, cost: u64, value: f64) -> Equation {
    Equation { tokens, cost, value: value.to_bits() }
}

#[test]
fn new_knowledge_is_empty() {
    let k = Knowledge::new();
    assert_eq!(k.len(), 0);
    assert!(k.equations().is_empty());
    assert!(k.get(WrappedValue(bits(4.0))).is_none());
}

#[test]
fn merge_takes_in_a_new_value() {
    let mut k = Knowledge::new();
    k.merge(equation(vec![0xe4], 0, 4.0));
    k.merge(equation(vec![0xe4, 0x00], 2, -4.0));
    assert_eq!(k.len(), 2);
    assert_eq!(k.get(WrappedValue(bits(4.0))).unwrap().tokens, vec![0xe4]);
    assert_eq!(k.get(WrappedValue(bits(-4.0))).unwrap().cost, 2);
    assert!(k.get(WrappedValue(bits(8.0))).is_none());
}

#[test]
fn cheaper_equation_replaces_the_dearer_one() {
    let mut k = Knowledge::new();
    k.merge(equation(vec![0xe2, 0xe2, 0x12, 0x00, 0x00], 3, 4.0));
    k.merge(equation(vec![0xe2, 0xe2, 0x10], 1, 4.0));
    assert_eq!(k.len(), 1);
    let kept = k.get(WrappedValue(bits(4.0))).unwrap();
    assert_eq!(kept.cost, 1);
    assert_eq!(kept.tokens, vec![0xe2, 0xe2, 0x10]);
}

#[test]
fn dearer_equation_does_not_replace_the_cheaper_one() {
    let mut k = Knowledge::new();
    k.merge(equation(vec![0xe2, 0xe2, 0x10], 1, 4.0));
    k.merge(equation(vec![0xe2, 0xe2, 0x12, 0x00, 0x00], 3, 4.0));
    assert_eq!(k.len(), 1);
    let kept = k.get(WrappedValue(bits(4.0))).unwrap();
    assert_eq!(kept.cost, 1);
    assert_eq!(kept.tokens, vec![0xe2, 0xe2, 0x10]);
}

#[test]
fn equal_cost_keeps_what_was_there() {
    let mut k = Knowledge::new();
    k.merge(equation(vec![0xe2, 0xe2, 0x10], 3, 4.0));
    k.merge(equation(vec![0xe2, 0xe2, 0x12], 3, 4.0));
    assert_eq!(k.len(), 1);
    assert_eq!(k.get(WrappedValue(bits(4.0))).unwrap().tokens, vec![0xe2, 0xe2, 0x10]);
}

#[test]
fn values_are_told_apart_by_their_bits() {
    let mut k = Knowledge::new();
    k.merge(equation(vec![0xe0], 0, 0.0));
    k.merge(equation(vec![0xe0, 0x00], 2, -0.0));
    k.merge(equation(vec![0xe4], 0, 4.0));
    k.merge(equation(vec![0xe4, 0x01], 5, 4.0000000001));
    assert_eq!(k.len(), 4);
    assert_eq!(k.get(WrappedValue(bits(0.0))).unwrap().cost, 0);
    assert_eq!(k.get(WrappedValue(bits(-0.0))).unwrap().cost, 2);
    assert_eq!(k.get(WrappedValue(bits(4.0000000001))).unwrap().cost, 5);
}

#[test]
fn equations_lists_each_value_once() {
    let mut k = Knowledge::new();
    for n in 0..200u32 {
        k.merge(equation(vec![0xe1], u64::from(n), f64::from(n % 50)));
    }
    let list = k.equations();
    assert_eq!(list.len(), 50);
    assert_eq!(k.len(), 50);
    let mut values: Vec<u64> = list.iter().map(|e| e.value).collect();
    values.sort();
    values.dedup();
    assert_eq!(values.len(), 50);
    for e in list {
        assert!(e.cost < 50);
        assert_eq!(f64::from_bits(e.value), e.cost as f64);
    }
}

#[test]
fn wrapped_value_is_its_bits() {
    let w = WrappedValue(bits(1.0));
    assert_eq!(w.key(), 0x3ff0_0000_0000_0000);
    assert_eq!(w, WrappedValue(0x3ff0_0000_0000_0000));
    assert_ne!(WrappedValue(bits(0.0)), WrappedValue(bits(-0.0)));
}

#[test]
fn memo_keeps_one_entry_for_each_digit_string() {
    let mut memo = Memo::new();
    assert_eq!(memo.len(), 0);
    assert!(!memo.contains_key("44"));
    assert!(memo.get("44").is_none());
    let mut k = Knowledge::new();
    k.merge(equation(vec![0xe4, 0xf4], 0, 44.0));
    memo.insert("44", k);
    memo.insert("4", Knowledge::new());
    assert_eq!(memo.len(), 2);
    assert!(memo.contains_key("44"));
    assert!(memo.contains_key("4"));
    assert!(!memo.contains_key("444"));
    assert_eq!(memo.get("44").unwrap().len(), 1);
    assert_eq!(memo.get("4").unwrap().len(), 0);
}

#[test]
fn memo_insert_replaces_an_entry() {
    let mut memo = Memo::new();
    memo.insert("44", Knowledge::new());
    let mut k = Knowledge::new();
    k.merge(equation(vec![0xe4, 0xf4], 0, 44.0));
    k.merge(equation(vec![0xe4, 0xe4, 0x10], 1, 8.0));
    memo.insert("44", k);
    assert_eq!(memo.len(), 1);
    assert_eq!(memo.get("44").unwrap().len(), 2);
}
