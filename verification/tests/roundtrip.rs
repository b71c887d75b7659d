use four_fours::search::{BinaryOp, Equation, Memo, Searcher, UnaryOp};
use four_fours::{select, BinaryOpPrinter, Printer, UnaryOpPrinter};

type Unary = UnaryOp<fn(u64) -> Option<u64>>;
type Binary = BinaryOp<fn(u64, u64) -> Option<u64>>;

const TABLE: [f64; 9] = [1., 1., 2., 6., 24., 120., 720., 5040., 40320.];

fn factorial(x: f64) -> Option<f64> {
    if x < 0.0 || x > f64::from(i32::MAX) || x.fract().abs() > f64::EPSILON {
        return None;
    }
    let n = x.round() as usize;
    if n >= TABLE.len() {
        return None;
    }
    Some(TABLE[n])
}

fn negate(v: u64) -> Option<u64> {
    Some((-f64::from_bits(v)).to_bits())
}

fn sqrt(v: u64) -> Option<u64> {
    let x = f64::from_bits(v);
    if x < 0.0 {
        None
    } else {
        Some(x.sqrt().to_bits())
    }
}

fn fact(v: u64) -> Option<u64> {
    factorial(f64::from_bits(v)).map(f64::to_bits)
}

fn add(l: u64, r: u64) -> Option<u64> {
    Some((f64::from_bits(l) + f64::from_bits(r)).to_bits())
}

fn sub(l: u64, r: u64) -> Option<u64> {
    Some((f64::from_bits(l) - f64::from_bits(r)).to_bits())
}

fn mul(l: u64, r: u64) -> Option<u64> {
    Some((f64::from_bits(l) * f64::from_bits(r)).to_bits())
}

fn div(l: u64, r: u64) -> Option<u64> {
    let (x, y) = (f64::from_bits(l), f64::from_bits(r));
    if y == 0.0 {
        None
    } else {
        Some((x / y).to_bits())
    }
}

fn pow(l: u64, r: u64) -> Option<u64> {
    Some(f64::from_bits(l).powf(f64::from_bits(r)).to_bits())
}

fn whole(v: u64) -> Option<i32> {
    let x = f64::from_bits(v);
    if x >= 0.0 && x < 2000.0 && x.fract().abs() < 1e-9 {
        Some(x.round() as i32)
    } else {
        None
    }
}

fn unary_ops() -> Vec<Unary> {
    vec![UnaryOp::new(0x00, 2, negate as _), UnaryOp::new(0x01, 4, sqrt as _), UnaryOp::new(0x02, 6, fact as _)]
}

fn binary_ops() -> Vec<Binary> {
    vec![
        BinaryOp::new(0x10, 1, add as _),
        BinaryOp::new(0x11, 2, sub as _),
        BinaryOp::new(0x12, 3, mul as _),
        BinaryOp::new(0x13, 4, div as _),
        BinaryOp::new(0x14, 6, pow as _),
    ]
}

fn printer() -> Printer {
    Printer::new(
        vec![
            UnaryOpPrinter::new(0x00, "-", "", 3, true),
            UnaryOpPrinter::new(0x01, "√", "", 1, true),
            UnaryOpPrinter::new(0x02, "", "!", 2, true),
        ],
        vec![
            BinaryOpPrinter::new(0x10, "", "+", "", 6, true, true, true, true),
            BinaryOpPrinter::new(0x11, "", "-", "", 6, true, false, true, true),
            BinaryOpPrinter::new(0x12, "", "*", "", 5, true, true, true, true),
            BinaryOpPrinter::new(0x13, "", "/", "", 5, true, false, true, true),
            BinaryOpPrinter::new(0x14, "", "^", "", 3, false, true, true, true),
        ],
        "(",
        ")",
    )
}

/// Reads infix text by the usual precedences: the root binds tightest, then
/// the factorial, then the sign and the power (the power to the right), then
/// product and quotient, then sum and difference (both to the left).
struct Reader {
    text: Vec<char>,
    at: usize,
}

impl Reader {
    fn peek(&self) -> Option<char> {
        self.text.get(self.at).copied()
    }

    fn take(&mut self, c: char) -> bool {
        if self.peek() == Some(c) {
            self.at += 1;
            true
        } else {
            false
        }
    }

    fn sum(&mut self) -> f64 {
        let mut x = self.product();
        loop {
            if self.take('+') {
                x += self.product();
            } else if self.take('-') {
                x -= self.product();
            } else {
                return x;
            }
        }
    }

    fn product(&mut self) -> f64 {
        let mut x = self.power();
        loop {
            if self.take('*') {
                x *= self.power();
            } else if self.take('/') {
                x /= self.power();
            } else {
                return x;
            }
        }
    }

    fn power(&mut self) -> f64 {
        let x = self.signed();
        if self.take('^') {
            let y = self.power();
            x.powf(y)
        } else {
            x
        }
    }

    fn signed(&mut self) -> f64 {
        if self.take('-') {
            -self.signed()
        } else {
            self.factorials()
        }
    }

    fn factorials(&mut self) -> f64 {
        let mut x = self.root();
        while self.take('!') {
            x = factorial(x).unwrap();
        }
        x
    }

    fn root(&mut self) -> f64 {
        if self.take('√') {
            self.root().sqrt()
        } else if self.take('(') {
            let x = self.sum();
            assert!(self.take(')'));
            x
        } else {
            let from = self.at;
            while self.peek().map_or(false, |c| c.is_ascii_digit()) {
                self.at += 1;
            }
            assert!(self.at > from);
            self.text[from..self.at].iter().collect::<String>().parse::<i32>().unwrap().into()
        }
    }
}

fn evaluate(text: &str) -> f64 {
    let mut reader = Reader { text: text.chars().collect(), at: 0 };
    let x = reader.sum();
    assert_eq!(reader.at, reader.text.len(), "{}", text);
    x
}

/// Whether `x` and `y` are the same but for rounding: text that leaves out
/// parentheses around a sum within a sum is read back in another order.
fn same(x: f64, y: f64) -> bool {
    x.to_bits() == y.to_bits()
        || (x.is_nan() && y.is_nan())
        || (x - y).abs() <= 1e-9 * x.abs().max(y.abs()).max(1.0)
}

#[test]
fn reader_reads_by_the_usual_precedences() {
    assert_eq!(evaluate("4+4*4"), 20.0);
    assert_eq!(evaluate("(4+4)*4"), 32.0);
    assert_eq!(evaluate("4-4-4"), -4.0);
    assert_eq!(evaluate("4-(4-4)"), 4.0);
    assert_eq!(evaluate("4^3^2"), 262144.0);
    assert_eq!(evaluate("(4^3)^2"), 4096.0);
    assert_eq!(evaluate("-4!"), -24.0);
    assert_eq!(evaluate("√4!"), 2.0);
    assert_eq!(evaluate("√(4!)"), 24f64.sqrt());
    assert_eq!(evaluate("-√4*4"), -8.0);
    assert_eq!(evaluate("4/4/4"), 0.25);
}

#[test]
fn printed_equations_read_back_as_their_value() {
    for (numbers, rounds) in [("4", 3), ("44", 3), ("12", 3), ("444", 1), ("123", 1), ("90", 2)] {
        let s = Searcher::new(unary_ops(), binary_ops()).with_rounds(rounds);
        let mut memo = Memo::new();
        s.search(&mut memo, numbers);
        let p = printer();
        let known = memo.get(numbers).unwrap().equations();
        assert!(!known.is_empty());
        for e in known {
            let text = p.print(e);
            let back = evaluate(&text);
            assert!(same(back, f64::from_bits(e.value)), "{} = {} and not {}", text, back, f64::from_bits(e.value));
        }
    }
}

#[test]
fn selected_equations_read_back_as_their_number() {
    let s = Searcher::new(unary_ops(), binary_ops()).with_rounds(2);
    let mut memo = Memo::new();
    s.search(&mut memo, "444");
    let results = select(memo.get("444").unwrap(), whole);
    let p = printer();
    assert!(results.len() > 20);
    for (n, e) in &results {
        let back = evaluate(&p.print(e));
        assert!((back - f64::from(*n)).abs() < 1e-9);
        assert_eq!(whole(e.value), Some(*n));
    }
    let all = memo.get("444").unwrap().equations();
    for e in all {
        if let Some(n) = whole(e.value) {
            assert!(results.get(&n).unwrap().cost <= e.cost);
        }
    }
    // 1+(√2-√3) is written without parentheses and read back as (1+√2)-√3,
    // which is another number by one bit.
    let inner = Equation { tokens: vec![0xe1, 0xe2, 0x01, 0xe3, 0x01, 0x11, 0x10], cost: 11, value: 0 };
    assert_eq!(p.print(&inner), "1+√2-√3");
    assert_ne!(evaluate("1+√2-√3"), 1.0 + (2f64.sqrt() - 3f64.sqrt()));
    let by_hand = |tokens: Vec<u8>| Equation { tokens, cost: 0, value: 0 };
    assert_eq!(p.print(&by_hand(vec![0xe4, 0xe4, 0x10, 0xe4, 0x12])), "(4+4)*4");
    assert_eq!(evaluate("(4+4)*4"), 32.0);
}
