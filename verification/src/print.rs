//! Equations as text: from the tokens of an expression in postfix order to
//! the expression in infix notation, with parentheses where the operators'
//! precedences ask for them.

use vstd::prelude::*;
use vstd::string::*;

use crate::search::equation::Equation;
use crate::search::{Token, DIGITS};

verus! {

/// How a unary operator is written.
#[derive(Debug, Clone)]
pub struct UnaryOpPrinter {
    token: Token,
    prefix: String,
    suffix: String,
    /// How tightly the operator binds: the lower, the tighter.
    precedence: i32,
    /// Whether an operand that binds no tighter than the operator is put in
    /// parentheses.
    paren: bool,
}

/// How a unary operator is written, as a mathematical value.
pub struct UnaryStyle {
    pub token: Token,
    pub prefix: Seq<char>,
    pub suffix: Seq<char>,
    pub precedence: int,
    pub paren: bool,
}

impl View for UnaryOpPrinter {
    type V = UnaryStyle;

    closed spec fn view(&self) -> UnaryStyle {
        UnaryStyle {
            token: self.token,
            prefix: self.prefix@,
            suffix: self.suffix@,
            precedence: self.precedence as int,
            paren: self.paren,
        }
    }
}

impl UnaryOpPrinter {
    pub fn new(token: Token, prefix: &str, suffix: &str, precedence: i32, paren: bool) -> (printer:
        UnaryOpPrinter)
        ensures
            printer@ == (UnaryStyle {
                token,
                prefix: prefix@,
                suffix: suffix@,
                precedence: precedence as int,
                paren,
            }),
    {
        UnaryOpPrinter {
            token,
            prefix: prefix.to_owned(),
            suffix: suffix.to_owned(),
            precedence,
            paren,
        }
    }
}

/// How a binary operator is written.
#[derive(Debug, Clone)]
pub struct BinaryOpPrinter {
    token: Token,
    prefix: String,
    infix: String,
    suffix: String,
    /// How tightly the operator binds: the lower, the tighter.
    precedence: i32,
    /// Whether `a . b . c` means `(a . b) . c`.
    left_associative: bool,
    /// Whether `a . b . c` means `a . (b . c)`.
    right_associative: bool,
    /// Whether the left operand is put in parentheses where it binds too
    /// loosely.
    paren_left: bool,
    /// Whether the right operand is put in parentheses where it binds too
    /// loosely.
    paren_right: bool,
}

/// How a binary operator is written, as a mathematical value.
pub struct BinaryStyle {
    pub token: Token,
    pub prefix: Seq<char>,
    pub infix: Seq<char>,
    pub suffix: Seq<char>,
    pub precedence: int,
    pub left_associative: bool,
    pub right_associative: bool,
    pub paren_left: bool,
    pub paren_right: bool,
}

impl View for BinaryOpPrinter {
    type V = BinaryStyle;

    closed spec fn view(&self) -> BinaryStyle {
        BinaryStyle {
            token: self.token,
            prefix: self.prefix@,
            infix: self.infix@,
            suffix: self.suffix@,
            precedence: self.precedence as int,
            left_associative: self.left_associative,
            right_associative: self.right_associative,
            paren_left: self.paren_left,
            paren_right: self.paren_right,
        }
    }
}

impl BinaryOpPrinter {
    pub fn new(
        token: Token,
        prefix: &str,
        infix: &str,
        suffix: &str,
        precedence: i32,
        left_associative: bool,
        right_associative: bool,
        paren_left: bool,
        paren_right: bool,
    ) -> (printer: BinaryOpPrinter)
        ensures
            printer@ == (BinaryStyle {
                token,
                prefix: prefix@,
                infix: infix@,
                suffix: suffix@,
                precedence: precedence as int,
                left_associative,
                right_associative,
                paren_left,
                paren_right,
            }),
    {
        BinaryOpPrinter {
            token,
            prefix: prefix.to_owned(),
            infix: infix.to_owned(),
            suffix: suffix.to_owned(),
            precedence,
            left_associative,
            right_associative,
            paren_left,
            paren_right,
        }
    }
}

/// A part of an expression that has been written: its text, and how tightly
/// its outermost operator binds. A literal binds tightest, at zero.
pub struct Piece {
    pub text: Seq<char>,
    pub precedence: int,
}

/// The character of the digit `n`.
pub open spec fn digit_char(n: int) -> char {
    if n == 0 {
        '0'
    } else if n == 1 {
        '1'
    } else if n == 2 {
        '2'
    } else if n == 3 {
        '3'
    } else if n == 4 {
        '4'
    } else if n == 5 {
        '5'
    } else if n == 6 {
        '6'
    } else if n == 7 {
        '7'
    } else if n == 8 {
        '8'
    } else {
        '9'
    }
}

/// The first of `ops` that has the token `token`.
pub open spec fn first_unary(ops: Seq<UnaryStyle>, token: Token) -> Option<UnaryStyle>
    decreases ops.len(),
{
    if ops.len() == 0 {
        None
    } else if ops[0].token == token {
        Some(ops[0])
    } else {
        first_unary(ops.drop_first(), token)
    }
}

/// The first of `ops` that has the token `token`.
pub open spec fn first_binary(ops: Seq<BinaryStyle>, token: Token) -> Option<BinaryStyle>
    decreases ops.len(),
{
    if ops.len() == 0 {
        None
    } else if ops[0].token == token {
        Some(ops[0])
    } else {
        first_binary(ops.drop_first(), token)
    }
}

/// How equations are written: the operators, and the two parentheses.
#[derive(Debug, Clone)]
pub struct Printer {
    unary_ops: Vec<UnaryOpPrinter>,
    binary_ops: Vec<BinaryOpPrinter>,
    paren_left: String,
    paren_right: String,
}

/// How equations are written, as a mathematical value.
pub struct Style {
    pub unary_ops: Seq<UnaryStyle>,
    pub binary_ops: Seq<BinaryStyle>,
    pub paren_left: Seq<char>,
    pub paren_right: Seq<char>,
}

impl Style {
    /// `text` in parentheses.
    pub open spec fn wrap(self, text: Seq<char>) -> Seq<char> {
        self.paren_left + text + self.paren_right
    }

    /// The operator `op` written with its operand. The operand is put in
    /// parentheses where the operator asks for them and the operand binds no
    /// tighter than the operator.
    pub open spec fn unary(self, op: UnaryStyle, operand: Piece) -> Piece {
        let inner = if op.paren && operand.precedence >= op.precedence {
            self.wrap(operand.text)
        } else {
            operand.text
        };
        Piece { text: op.prefix + inner + op.suffix, precedence: op.precedence }
    }

    /// The operator `op` written with its two operands. An operand is put in
    /// parentheses where the operator asks for them on that side and the
    /// operand binds less tightly than the operator, or as tightly while the
    /// operator does not associate to that side.
    pub open spec fn binary(self, op: BinaryStyle, left: Piece, right: Piece) -> Piece {
        let first = if op.paren_left && (left.precedence > op.precedence || (left.precedence
            == op.precedence && !op.left_associative)) {
            self.wrap(left.text)
        } else {
            left.text
        };
        let second = if op.paren_right && (right.precedence > op.precedence || (right.precedence
            == op.precedence && !op.right_associative)) {
            self.wrap(right.text)
        } else {
            right.text
        };
        Piece { text: op.prefix + first + op.infix + second + op.suffix, precedence: op.precedence }
    }

    /// The stack of written parts after `token`, where `stack` is the stack
    /// before it.
    ///
    /// A digit that opens a literal becomes a new part. A digit that
    /// continues a literal is added to the text of the last part. An
    /// operator takes its operands from the end of the stack, the right one
    /// last, and leaves what is written of them; among the operators the
    /// unary ones are looked through first. There is no stack after a token
    /// that is neither a digit nor an operator of this style, and none where
    /// the stack does not hold what the token needs.
    pub open spec fn step(self, stack: Seq<Piece>, token: Token) -> Option<Seq<Piece>> {
        if 0xe0 <= token <= 0xe9 {
            Some(stack.push(Piece { text: seq![digit_char(token - 0xe0)], precedence: 0 }))
        } else if 0xf0 <= token <= 0xf9 {
            if stack.len() >= 1 {
                Some(
                    stack.drop_last().push(
                        Piece {
                            text: stack.last().text.push(digit_char(token - 0xf0)),
                            precedence: 0,
                        },
                    ),
                )
            } else {
                None
            }
        } else if token >= DIGITS {
            None
        } else {
            match first_unary(self.unary_ops, token) {
                Some(op) => if stack.len() >= 1 {
                    Some(stack.drop_last().push(self.unary(op, stack.last())))
                } else {
                    None
                },
                None => match first_binary(self.binary_ops, token) {
                    Some(op) => if stack.len() >= 2 {
                        Some(
                            stack.drop_last().drop_last().push(
                                self.binary(op, stack[stack.len() - 2], stack.last()),
                            ),
                        )
                    } else {
                        None
                    },
                    None => None,
                },
            }
        }
    }

    /// The stack of written parts after all of `tokens`, from the first to
    /// the last.
    pub open spec fn run(self, stack: Seq<Piece>, tokens: Seq<Token>) -> Option<Seq<Piece>>
        decreases tokens.len(),
    {
        if tokens.len() == 0 {
            Some(stack)
        } else {
            match self.step(stack, tokens[0]) {
                Some(next) => self.run(next, tokens.drop_first()),
                None => None,
            }
        }
    }

    /// The text of the expression that `tokens` holds in postfix order.
    /// There is one where the tokens can be gone through from an empty stack
    /// and a single part is left at the end.
    pub open spec fn render(self, tokens: Seq<Token>) -> Option<Seq<char>> {
        match self.run(Seq::empty(), tokens) {
            Some(stack) => if stack.len() == 1 {
                Some(stack[0].text)
            } else {
                None
            },
            None => None,
        }
    }
}

/// The styles of a list of unary operators.
pub open spec fn unary_styles(ops: Seq<UnaryOpPrinter>) -> Seq<UnaryStyle> {
    ops.map_values(|p: UnaryOpPrinter| p@)
}

/// The styles of a list of binary operators.
pub open spec fn binary_styles(ops: Seq<BinaryOpPrinter>) -> Seq<BinaryStyle> {
    ops.map_values(|p: BinaryOpPrinter| p@)
}

/// A stack of written parts as a mathematical value.
pub open spec fn pieces(stack: Seq<(String, i32)>) -> Seq<Piece> {
    stack.map_values(|p: (String, i32)| Piece { text: p.0@, precedence: p.1 as int })
}

impl View for Printer {
    type V = Style;

    closed spec fn view(&self) -> Style {
        Style {
            unary_ops: unary_styles(self.unary_ops@),
            binary_ops: binary_styles(self.binary_ops@),
            paren_left: self.paren_left@,
            paren_right: self.paren_right@,
        }
    }
}

/// The text of the digit `n`.
fn digit_text(n: u8) -> (text: &'static str)
    requires
        n < 10,
    ensures
        text@ == seq![digit_char(n as int)],
{
    proof {
        reveal_strlit("0");
        reveal_strlit("1");
        reveal_strlit("2");
        reveal_strlit("3");
        reveal_strlit("4");
        reveal_strlit("5");
        reveal_strlit("6");
        reveal_strlit("7");
        reveal_strlit("8");
        reveal_strlit("9");
    }
    let text = if n == 0 {
        "0"
    } else if n == 1 {
        "1"
    } else if n == 2 {
        "2"
    } else if n == 3 {
        "3"
    } else if n == 4 {
        "4"
    } else if n == 5 {
        "5"
    } else if n == 6 {
        "6"
    } else if n == 7 {
        "7"
    } else if n == 8 {
        "8"
    } else {
        "9"
    };
    assert(text@ =~= seq![digit_char(n as int)]);
    text
}

impl Printer {
    pub fn new(
        unary_ops: Vec<UnaryOpPrinter>,
        binary_ops: Vec<BinaryOpPrinter>,
        paren_left: &str,
        paren_right: &str,
    ) -> (printer: Printer)
        ensures
            printer@ == (Style {
                unary_ops: unary_styles(unary_ops@),
                binary_ops: binary_styles(binary_ops@),
                paren_left: paren_left@,
                paren_right: paren_right@,
            }),
    {
        Printer {
            unary_ops,
            binary_ops,
            paren_left: paren_left.to_owned(),
            paren_right: paren_right.to_owned(),
        }
    }

    /// Where the first unary operator with the token `token` stands.
    fn find_unary(&self, token: Token) -> (found: Option<usize>)
        ensures
            match found {
                Some(i) => i < self.unary_ops@.len() && first_unary(self@.unary_ops, token) == Some(
                    self.unary_ops@[i as int]@,
                ),
                None => first_unary(self@.unary_ops, token) is None,
            },
    {
        let ghost ops = self@.unary_ops;
        let mut i: usize = 0;
        assert(ops.skip(0) =~= ops);
        while i < self.unary_ops.len()
            invariant
                i <= self.unary_ops@.len(),
                ops == unary_styles(self.unary_ops@),
                first_unary(ops, token) == first_unary(ops.skip(i as int), token),
            decreases self.unary_ops@.len() - i,
        {
            proof {
                assert(ops.skip(i as int)[0] == self.unary_ops@[i as int]@);
                assert(ops.skip(i as int).drop_first() =~= ops.skip(i + 1));
            }
            if self.unary_ops[i].token == token {
                return Some(i);
            }
            i = i + 1;
        }
        None
    }

    /// Where the first binary operator with the token `token` stands.
    fn find_binary(&self, token: Token) -> (found: Option<usize>)
        ensures
            match found {
                Some(i) => i < self.binary_ops@.len() && first_binary(self@.binary_ops, token)
                    == Some(self.binary_ops@[i as int]@),
                None => first_binary(self@.binary_ops, token) is None,
            },
    {
        let ghost ops = self@.binary_ops;
        let mut i: usize = 0;
        assert(ops.skip(0) =~= ops);
        while i < self.binary_ops.len()
            invariant
                i <= self.binary_ops@.len(),
                ops == binary_styles(self.binary_ops@),
                first_binary(ops, token) == first_binary(ops.skip(i as int), token),
            decreases self.binary_ops@.len() - i,
        {
            proof {
                assert(ops.skip(i as int)[0] == self.binary_ops@[i as int]@);
                assert(ops.skip(i as int).drop_first() =~= ops.skip(i + 1));
            }
            if self.binary_ops[i].token == token {
                return Some(i);
            }
            i = i + 1;
        }
        None
    }

    /// `text` as an operand: in parentheses where `wrapped` says so.
    fn operand(&self, text: String, wrapped: bool) -> (out: String)
        ensures
            out@ == if wrapped {
                self@.wrap(text@)
            } else {
                text@
            },
    {
        if wrapped {
            let mut out = self.paren_left.clone();
            out.append(text.as_str());
            out.append(self.paren_right.as_str());
            out
        } else {
            text
        }
    }

    /// The unary operator at `at` written with its operand.
    fn write_unary(&self, at: usize, operand: (String, i32)) -> (out: (String, i32))
        requires
            at < self.unary_ops@.len(),
        ensures
            (Piece { text: out.0@, precedence: out.1 as int }) == self@.unary(
                self.unary_ops@[at as int]@,
                Piece { text: operand.0@, precedence: operand.1 as int },
            ),
    {
        let op = &self.unary_ops[at];
        let inner = self.operand(operand.0, op.paren && operand.1 >= op.precedence);
        let mut text = op.prefix.clone();
        text.append(inner.as_str());
        text.append(op.suffix.as_str());
        (text, op.precedence)
    }

    /// The binary operator at `at` written with its two operands.
    fn write_binary(&self, at: usize, left: (String, i32), right: (String, i32)) -> (out: (
        String,
        i32,
    ))
        requires
            at < self.binary_ops@.len(),
        ensures
            (Piece { text: out.0@, precedence: out.1 as int }) == self@.binary(
                self.binary_ops@[at as int]@,
                Piece { text: left.0@, precedence: left.1 as int },
                Piece { text: right.0@, precedence: right.1 as int },
            ),
    {
        let op = &self.binary_ops[at];
        let first = self.operand(
            left.0,
            op.paren_left && (left.1 > op.precedence || (left.1 == op.precedence
                && !op.left_associative)),
        );
        let second = self.operand(
            right.0,
            op.paren_right && (right.1 > op.precedence || (right.1 == op.precedence
                && !op.right_associative)),
        );
        let mut text = op.prefix.clone();
        text.append(first.as_str());
        text.append(op.infix.as_str());
        text.append(second.as_str());
        text.append(op.suffix.as_str());
        (text, op.precedence)
    }

    /// The stack after one token, where there is one.
    fn advance(&self, stack: &mut Vec<(String, i32)>, token: Token) -> (done: bool)
        ensures
            match self@.step(pieces(old(stack)@), token) {
                Some(next) => done && pieces(final(stack)@) == next,
                None => !done,
            },
    {
        let ghost before = pieces(stack@);
        if 0xe0 <= token && token <= 0xe9 {
            stack.push((digit_text(token - 0xe0).to_owned(), 0));
            assert(pieces(stack@) =~= before.push(
                Piece { text: seq![digit_char(token - 0xe0)], precedence: 0 },
            ));
            true
        } else if 0xf0 <= token && token <= 0xf9 {
            match stack.pop() {
                Some(last) => {
                    let mut text = last.0;
                    text.append(digit_text(token - 0xf0));
                    stack.push((text, 0));
                    assert(pieces(stack@) =~= before.drop_last().push(
                        Piece {
                            text: before.last().text + seq![digit_char(token - 0xf0)],
                            precedence: 0,
                        },
                    ));
                    assert(before.last().text + seq![digit_char(token - 0xf0)]
                        =~= before.last().text.push(digit_char(token - 0xf0)));
                    true
                },
                None => false,
            }
        } else if token >= DIGITS {
            false
        } else {
            match self.find_unary(token) {
                Some(at) => match stack.pop() {
                    Some(operand) => {
                        let written = self.write_unary(at, operand);
                        stack.push(written);
                        assert(pieces(stack@) =~= before.drop_last().push(
                            self@.unary(self.unary_ops@[at as int]@, before.last()),
                        ));
                        true
                    },
                    None => false,
                },
                None => match self.find_binary(token) {
                    Some(at) => {
                        if stack.len() < 2 {
                            return false;
                        }
                        match stack.pop() {
                            Some(right) => match stack.pop() {
                                Some(left) => {
                                    let written = self.write_binary(at, left, right);
                                    stack.push(written);
                                    assert(pieces(stack@) =~= before.drop_last().drop_last().push(
                                        self@.binary(
                                            self.binary_ops@[at as int]@,
                                            before[before.len() - 2],
                                            before.last(),
                                        ),
                                    ));
                                    true
                                },
                                None => false,
                            },
                            None => false,
                        }
                    },
                    None => false,
                },
            }
        }
    }

    /// The equation as text in infix notation, where the tokens of the
    /// equation make up one expression in this printer's operators.
    pub fn try_print(&self, equation: &Equation) -> (text: Option<String>)
        ensures
            match self@.render(equation@.tokens) {
                Some(t) => text matches Some(s) && s@ == t,
                None => text is None,
            },
    {
        let ghost tokens = equation@.tokens;
        let mut stack: Vec<(String, i32)> = Vec::new();
        let mut i: usize = 0;
        assert(tokens.skip(0) =~= tokens);
        assert(pieces(stack@) =~= Seq::empty());
        while i < equation.tokens.len()
            invariant
                i <= tokens.len(),
                tokens == equation.tokens@,
                self@.run(Seq::empty(), tokens) == self@.run(pieces(stack@), tokens.skip(i as int)),
            decreases tokens.len() - i,
        {
            proof {
                assert(tokens.skip(i as int)[0] == tokens[i as int]);
                assert(tokens.skip(i as int).drop_first() =~= tokens.skip(i + 1));
            }
            if !self.advance(&mut stack, equation.tokens[i]) {
                return None;
            }
            i = i + 1;
        }
        if stack.len() == 1 {
            match stack.pop() {
                Some(last) => Some(last.0),
                None => None,
            }
        } else {
            None
        }
    }

    /// The equation as text in infix notation.
    pub fn print(&self, equation: &Equation) -> (text: String)
        requires
            self@.render(equation@.tokens) is Some,
        ensures
            Some(text@) == self@.render(equation@.tokens),
    {
        match self.try_print(equation) {
            Some(text) => text,
            None => String::new(),
        }
    }
}

} // verus!
