//! What printing makes of the equations of a search: the expression in infix
//! notation.

use vstd::prelude::*;

use crate::print::{digit_char, first_binary, first_unary, Piece, Style};
use crate::search::equation::EquationView;
use crate::search::expression::Expression;
use crate::search::number::{digit_of, is_digit, is_digits, literal_tokens};
use crate::search::{Searcher, Token, Value};

verus! {

/// The tokens `first`, then the tokens `rest`: going through all of them is
/// going through `first` and then, from the stack that this leaves, through
/// `rest`.
pub proof fn lemma_run_in_two(style: Style, stack: Seq<Piece>, first: Seq<Token>, rest: Seq<Token>)
    ensures
        style.run(stack, first + rest) == match style.run(stack, first) {
            Some(next) => style.run(next, rest),
            None => None,
        },
    decreases first.len(),
{
    if first.len() == 0 {
        assert(first + rest =~= rest);
    } else {
        assert((first + rest)[0] == first[0]);
        assert((first + rest).drop_first() =~= first.drop_first() + rest);
        match style.step(stack, first[0]) {
            Some(next) => {
                lemma_run_in_two(style, next, first.drop_first(), rest);
            },
            None => {},
        }
    }
}

/// Going through one token is one step.
pub proof fn lemma_run_one(style: Style, stack: Seq<Piece>, token: Token)
    ensures
        style.run(stack, seq![token]) == style.step(stack, token),
{
    let tokens = seq![token];
    assert(tokens[0] == token);
    assert(tokens.drop_first() =~= Seq::<Token>::empty());
    match style.step(stack, token) {
        Some(next) => {
            assert(style.run(next, tokens.drop_first()) == Some(next));
        },
        None => {},
    }
}

/// A digit is the character of the number that it stands for.
pub proof fn lemma_digit_char(c: char)
    requires
        is_digit(c),
    ensures
        digit_char(digit_of(c) as int) == c,
        digit_of(c) < 10,
{
}

/// The tokens of the first `k` digits of a literal leave those digits as one
/// more part on the stack.
pub proof fn lemma_run_digits(style: Style, stack: Seq<Piece>, digits: Seq<char>, k: int)
    requires
        is_digits(digits),
        0 < k <= digits.len(),
    ensures
        style.run(stack, literal_tokens(digits).take(k)) == Some(
            stack.push(Piece { text: digits.take(k), precedence: 0 }),
        ),
    decreases k,
{
    let tokens = literal_tokens(digits);
    let c = digits[k - 1];
    lemma_digit_char(c);
    assert(is_digit(c));
    if k == 1 {
        assert(tokens.take(1) =~= seq![tokens[0]]);
        lemma_run_one(style, stack, tokens[0]);
        assert(digits.take(1) =~= seq![c]);
        assert(tokens[0] == (0xe0 + digit_of(c)) as Token);
    } else {
        lemma_run_digits(style, stack, digits, k - 1);
        let before = stack.push(Piece { text: digits.take(k - 1), precedence: 0 });
        assert(tokens.take(k) =~= tokens.take(k - 1) + seq![tokens[k - 1]]);
        lemma_run_in_two(style, stack, tokens.take(k - 1), seq![tokens[k - 1]]);
        lemma_run_one(style, before, tokens[k - 1]);
        assert(tokens[k - 1] == (0xf0 + digit_of(c)) as Token);
        assert(digits.take(k) =~= digits.take(k - 1).push(c));
        assert(before.drop_last() =~= stack);
    }
}

impl<U: Fn(Value) -> Option<Value>, B: Fn(Value, Value) -> Option<Value>> Searcher<U, B> {
    /// Whether `style` can write every operator of this searcher: each unary
    /// operator is found among the unary operators of `style`, and each
    /// binary operator is found among the binary ones and not among the unary
    /// ones.
    pub open spec fn written_by(&self, style: Style) -> bool {
        &&& forall|o: int|
            0 <= o < self.unary_ops@.len() ==> first_unary(
                style.unary_ops,
                (#[trigger] self.unary_ops@[o]).token,
            ) is Some
        &&& forall|o: int|
            0 <= o < self.binary_ops@.len() ==> first_unary(
                style.unary_ops,
                (#[trigger] self.binary_ops@[o]).token,
            ) is None && first_binary(style.binary_ops, self.binary_ops@[o].token) is Some
    }

    /// The expression `x` in infix notation: a literal as its digits, an
    /// operator as `style` writes it with its operands.
    pub open spec fn written(&self, style: Style, x: Expression) -> Piece
        decreases x,
    {
        match x {
            Expression::Literal(digits) => Piece { text: digits, precedence: 0 },
            Expression::Unary(o, inner) => style.unary(
                first_unary(style.unary_ops, self.unary_ops@[o].token)->0,
                self.written(style, *inner),
            ),
            Expression::Binary(o, left, right) => style.binary(
                first_binary(style.binary_ops, self.binary_ops@[o].token)->0,
                self.written(style, *left),
                self.written(style, *right),
            ),
        }
    }

    /// The tokens of an expression leave the expression in infix notation as
    /// one more part on the stack.
    pub proof fn lemma_run_expression(
        &self,
        style: Style,
        x: Expression,
        stack: Seq<Piece>,
        rest: Seq<Token>,
    )
        requires
            self.wf(),
            self.written_by(style),
            self.equation_of(x) is Some,
        ensures
            style.run(stack, self.equation_of(x)->0.tokens + rest) == style.run(
                stack.push(self.written(style, x)),
                rest,
            ),
        decreases x,
    {
        let e = self.equation_of(x)->0;
        match x {
            Expression::Literal(digits) => {
                lemma_run_digits(style, stack, digits, digits.len() as int);
                assert(literal_tokens(digits).take(digits.len() as int) =~= literal_tokens(digits));
                assert(digits.take(digits.len() as int) =~= digits);
                lemma_run_in_two(style, stack, e.tokens, rest);
            },
            Expression::Unary(o, inner) => {
                let a = self.equation_of(*inner)->0;
                let token = self.unary_ops@[o].token;
                let after = stack.push(self.written(style, *inner));
                assert(e.tokens + rest =~= a.tokens + (seq![token] + rest));
                self.lemma_run_expression(style, *inner, stack, seq![token] + rest);
                lemma_run_in_two(style, after, seq![token], rest);
                lemma_run_one(style, after, token);
                assert(after.drop_last() =~= stack);
            },
            Expression::Binary(o, left, right) => {
                let l = self.equation_of(*left)->0;
                let r = self.equation_of(*right)->0;
                let token = self.binary_ops@[o].token;
                let first = stack.push(self.written(style, *left));
                let second = first.push(self.written(style, *right));
                assert(e.tokens + rest =~= l.tokens + (r.tokens + (seq![token] + rest)));
                self.lemma_run_expression(style, *left, stack, r.tokens + (seq![token] + rest));
                self.lemma_run_expression(style, *right, first, seq![token] + rest);
                lemma_run_in_two(style, second, seq![token], rest);
                lemma_run_one(style, second, token);
                assert(second.drop_last().drop_last() =~= stack);
            },
        }
    }

    /// Printing the equation of an expression gives the expression in infix
    /// notation.
    pub proof fn lemma_render_expression(&self, style: Style, x: Expression)
        requires
            self.wf(),
            self.written_by(style),
            self.equation_of(x) is Some,
        ensures
            style.render(self.equation_of(x)->0.tokens) == Some(self.written(style, x).text),
    {
        let e = self.equation_of(x)->0;
        self.lemma_run_expression(style, x, Seq::empty(), Seq::empty());
        assert(e.tokens + Seq::<Token>::empty() =~= e.tokens);
    }

    /// Every equation that a search knows can be printed, and what is printed
    /// is an expression that is written with the digits of the search, in
    /// infix notation.
    pub proof fn lemma_known_is_printed(
        &self,
        style: Style,
        digits: Seq<char>,
        k: Map<Value, EquationView>,
        v: Value,
    )
        requires
            self.wf(),
            self.written_by(style),
            self.knows(digits, k),
            k.contains_key(v),
        ensures
            exists|x: Expression|
                x.digits() == digits && #[trigger] self.equation_of(x) == Some(k[v])
                    && style.render(k[v].tokens) == Some(self.written(style, x).text),
    {
        let x = choose|x: Expression| #[trigger]
            self.equation_of(x) == Some(k[v]) && x.digits() == digits;
        self.lemma_render_expression(style, x);
    }
}

} // verus!
