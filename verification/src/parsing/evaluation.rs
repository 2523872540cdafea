//! What a written expression evaluates to when it is read again, and why
//! that is the value that the expression holds.
//!
//! The evaluation here is made of other parts than the expression that
//! writes itself out: it splits the text into tokens, reads numbers from
//! their digits, and follows the brackets.
use super::token_reader::{advanced, kind_of, reading, token_of, tokens_of, Reading};
use super::{operator_of_sign, Lexeme, TokenType};
use crate::base_types::expressions::{Expression, Operator};
use crate::base_types::numbers::{CheckedOperations, NumberSystem, NumberType};
use crate::base_types::numerals::{decimal, digit_char, digit_value, digits_value, numeral};
use vstd::prelude::*;

verus! {

/// What an operand at the front of the tokens evaluates to, and the tokens
/// behind it: a number, a number with a minus sign before it, or an
/// expression in brackets.
pub open spec fn operand_value<T: NumberType, N: NumberSystem<T>>(
    tokens: Seq<Lexeme>,
    system: N,
) -> Option<(int, Seq<Lexeme>)>
    decreases tokens.len(), 0int,
{
    if tokens.len() == 0 {
        None
    } else {
        match tokens[0] {
            Lexeme::Number(digits) => match digits_value(digits) {
                Some(n) => Some((n as int, tokens.skip(1))),
                None => None,
            },
            Lexeme::Punctuation(c) => if c == '-' {
                if tokens.len() >= 2 {
                    match tokens[1] {
                        Lexeme::Number(digits) => match digits_value(digits) {
                            Some(n) => Some((-(n as int), tokens.skip(2))),
                            None => None,
                        },
                        _ => None,
                    }
                } else {
                    None
                }
            } else if c == '(' {
                match expression_value::<T, N>(tokens.skip(1), system) {
                    Some((value, rest)) => if rest.len() > 0 && rest[0] == Lexeme::Punctuation(
                        ')',
                    ) {
                        Some((value, rest.skip(1)))
                    } else {
                        None
                    },
                    None => None,
                }
            } else {
                None
            },
            Lexeme::Word(_) => None,
        }
    }
}

/// What an expression at the front of the tokens evaluates to in the number
/// system, and the tokens behind it: an operand, or two operands with the
/// sign of an operator between them.
pub open spec fn expression_value<T: NumberType, N: NumberSystem<T>>(
    tokens: Seq<Lexeme>,
    system: N,
) -> Option<(int, Seq<Lexeme>)>
    decreases tokens.len(), 1int,
{
    match operand_value::<T, N>(tokens, system) {
        Some((left, rest)) => {
            if rest.len() >= tokens.len() {
                None
            } else if rest.len() > 0 && (rest[0] matches Lexeme::Punctuation(c) && operator_of_sign(
                c,
            ) is Some) {
                let operator = operator_of_sign(rest[0]->Punctuation_0).unwrap();
                match operand_value::<T, N>(rest.skip(1), system) {
                    Some((right, behind)) => match operator.apply_spec(system, left, right) {
                        Some(value) => Some((value, behind)),
                        None => None,
                    },
                    None => None,
                }
            } else {
                Some((left, rest))
            }
        },
        None => None,
    }
}

/// What a text evaluates to in the number system when it is read as one
/// expression.
pub open spec fn text_value<T: NumberType, N: NumberSystem<T>>(text: Seq<char>, system: N) -> Option<
    int,
> {
    match expression_value::<T, N>(tokens_of(text), system) {
        Some((value, rest)) => if rest.len() == 0 {
            Some(value)
        } else {
            None
        },
        None => None,
    }
}

/// The tokens that a number is written in.
pub open spec fn numeral_tokens(v: int) -> Seq<Lexeme> {
    if v < 0 {
        seq![Lexeme::Punctuation('-'), Lexeme::Number(decimal((-v) as nat))]
    } else {
        seq![Lexeme::Number(decimal(v as nat))]
    }
}

/// The tokens that an expression is written in.
pub open spec fn written<T: NumberType>(expression: Expression<T>, alternate: bool) -> Seq<Lexeme>
    decreases expression,
{
    match expression {
        Expression::Value(t) => numeral_tokens(t.value()),
        Expression::Application(_, operator, left, right) => {
            let inner = written(*left, true) + seq![Lexeme::Punctuation(operator.symbol())]
                + written(*right, true);
            if alternate {
                seq![Lexeme::Punctuation('(')] + inner + seq![Lexeme::Punctuation(')')]
            } else {
                inner
            }
        },
    }
}

/// What the reader holds after more characters.
pub open spec fn fed(state: Reading, chars: Seq<char>) -> Reading
    decreases chars.len(),
{
    if chars.len() == 0 {
        state
    } else {
        advanced(fed(state, chars.drop_last()), chars.last())
    }
}

/// The tokens of a reader with the run it is in made a token.
pub open spec fn finished(state: Reading) -> Seq<Lexeme> {
    if state.run.len() > 0 {
        state.tokens.push(token_of(state.kind, state.run))
    } else {
        state.tokens
    }
}

/// Reading two texts one after the other is reading the second from where
/// the first has led.
pub proof fn lemma_fed_joined(state: Reading, first: Seq<char>, second: Seq<char>)
    ensures
        fed(state, first + second) == fed(fed(state, first), second),
    decreases second.len(),
{
    if second.len() == 0 {
        assert(first + second =~= first);
    } else {
        lemma_fed_joined(state, first, second.drop_last());
        assert((first + second).drop_last() =~= first + second.drop_last());
    }
}

/// Reading a text is feeding it to a reader that holds nothing.
pub proof fn lemma_reading_is_fed(chars: Seq<char>)
    ensures
        reading(chars) == fed(
            Reading { tokens: Seq::empty(), run: Seq::empty(), kind: TokenType::Other },
            chars,
        ),
    decreases chars.len(),
{
    if chars.len() > 0 {
        lemma_reading_is_fed(chars.drop_last());
    }
}

/// Whether the reader is in no run, or in a run of digits.
pub open spec fn between_numbers(state: Reading) -> bool {
    state.run.len() > 0 ==> state.kind == TokenType::Number
}

/// One character that is neither a letter nor a digit ends the run: the
/// reader then holds the finished tokens, and the character behind them
/// where it stands for itself.
pub proof fn lemma_fed_separator(state: Reading, c: char)
    requires
        kind_of(c) == TokenType::Punctuation || kind_of(c) == TokenType::Other,
        between_numbers(state),
    ensures
        fed(state, seq![c]).run.len() == 0,
        fed(state, seq![c]).tokens == if kind_of(c) == TokenType::Punctuation {
            finished(state).push(Lexeme::Punctuation(c))
        } else {
            finished(state)
        },
{
    reveal_with_fuel(fed, 2);
    assert(seq![c].drop_last() =~= Seq::<char>::empty());
    assert(fed(state, seq![c]) == advanced(state, c));
}

/// The decimal digits of a number are digits, and stand for the number.
pub proof fn lemma_decimal_digits(n: nat)
    ensures
        decimal(n).len() > 0,
        forall|k: int| 0 <= k < decimal(n).len() ==> kind_of(#[trigger] decimal(n)[k])
            == TokenType::Number,
        digits_value(decimal(n)) == Some(n),
    decreases n,
{
    if n >= 10 {
        lemma_decimal_digits(n / 10);
        assert(decimal(n).drop_last() =~= decimal(n / 10));
    } else {
        assert(decimal(n).drop_last() =~= Seq::<char>::empty());
        reveal_with_fuel(digits_value, 2);
    }
    let d = (n % 10) as int;
    assert(digit_value(digit_char(d)) == Some(d));
    assert(kind_of(digit_char(d)) == TokenType::Number);
}

/// Feeding digits to a reader that is in no run leaves it in the run of
/// these digits.
pub proof fn lemma_fed_digits(state: Reading, digits: Seq<char>)
    requires
        state.run.len() == 0,
        digits.len() > 0,
        forall|k: int| 0 <= k < digits.len() ==> kind_of(#[trigger] digits[k])
            == TokenType::Number,
    ensures
        fed(state, digits) == (Reading {
            tokens: state.tokens,
            run: digits,
            kind: TokenType::Number,
        }),
    decreases digits.len(),
{
    let shorter = digits.drop_last();
    let after = fed(state, digits);
    assert(kind_of(digits[digits.len() - 1]) == TokenType::Number);
    assert(after == advanced(fed(state, shorter), digits.last()));
    if shorter.len() > 0 {
        assert forall|k: int| 0 <= k < shorter.len() implies kind_of(#[trigger] shorter[k])
            == TokenType::Number by {
            assert(shorter[k] == digits[k]);
        }
        lemma_fed_digits(state, shorter);
        assert(shorter.push(digits.last()) =~= digits);
    } else {
        assert(fed(state, shorter) == state);
        assert(Seq::<char>::empty().push(digits.last()) =~= digits);
        assert(state.run =~= Seq::<char>::empty());
    }
    assert(after.run =~= digits);
    assert(after.tokens == state.tokens);
    assert(after.kind == TokenType::Number);
}

/// Feeding a written number to a reader that is in no run leaves it with
/// the tokens of the number, the last of them in the run.
pub proof fn lemma_fed_numeral(state: Reading, v: int)
    requires
        state.run.len() == 0,
    ensures
        finished(fed(state, numeral(v))) == state.tokens + numeral_tokens(v),
        between_numbers(fed(state, numeral(v))),
{
    if v < 0 {
        let digits = decimal((-v) as nat);
        lemma_decimal_digits((-v) as nat);
        lemma_fed_joined(state, seq!['-'], digits);
        lemma_fed_separator(state, '-');
        lemma_fed_digits(fed(state, seq!['-']), digits);
        assert(finished(fed(state, numeral(v))) =~= state.tokens + numeral_tokens(v));
    } else {
        let digits = decimal(v as nat);
        lemma_decimal_digits(v as nat);
        lemma_fed_digits(state, digits);
        assert(finished(fed(state, numeral(v))) =~= state.tokens + numeral_tokens(v));
    }
}

/// Feeding a written expression to a reader that is in no run leaves it with
/// the tokens of the expression, the last of them in the run where it is a
/// number.
#[verifier::rlimit(30)]
pub proof fn lemma_fed_expression<T: NumberType>(
    state: Reading,
    expression: Expression<T>,
    alternate: bool,
)
    requires
        state.run.len() == 0,
    ensures
        finished(fed(state, expression.text(alternate))) == state.tokens + written(
            expression,
            alternate,
        ),
        between_numbers(fed(state, expression.text(alternate))),
    decreases expression,
{
    match expression {
        Expression::Value(t) => {
            lemma_fed_numeral(state, t.value());
        },
        Expression::Application(_, operator, left, right) => {
            let sign = operator.symbol();
            assert(kind_of(sign) == TokenType::Punctuation);
            let opened = if alternate {
                fed(state, seq!['('])
            } else {
                state
            };
            if alternate {
                lemma_fed_separator(state, '(');
            }
            let l = left.text(true);
            let r = right.text(true);
            lemma_fed_expression(opened, *left, true);
            let s1 = fed(opened, l);
            lemma_fed_separator(s1, ' ');
            let s2 = fed(s1, seq![' ']);
            lemma_fed_separator(s2, sign);
            let s3 = fed(s2, seq![sign]);
            lemma_fed_separator(s3, ' ');
            let s4 = fed(s3, seq![' ']);
            lemma_fed_expression(s4, *right, true);
            let s5 = fed(s4, r);
            let middle = seq![' ', sign, ' '];
            assert(middle =~= seq![' '] + seq![sign] + seq![' ']);
            lemma_fed_joined(s1, seq![' '] + seq![sign], seq![' ']);
            lemma_fed_joined(s1, seq![' '], seq![sign]);
            assert(fed(s1, middle) == s4);
            let inner = l + middle + r;
            lemma_fed_joined(opened, l + middle, r);
            lemma_fed_joined(opened, l, middle);
            assert(fed(opened, inner) == s5);
            let inner_tokens = written(*left, true) + seq![Lexeme::Punctuation(sign)] + written(
                *right,
                true,
            );
            assert(finished(s5) =~= opened.tokens + inner_tokens);
            if alternate {
                lemma_fed_separator(s5, ')');
                let text = seq!['('] + inner + seq![')'];
                lemma_fed_joined(state, seq!['('] + inner, seq![')']);
                lemma_fed_joined(state, seq!['('], inner);
                assert(expression.text(alternate) =~= text);
                assert(finished(fed(state, text)) =~= state.tokens + written(
                    expression,
                    alternate,
                ));
            } else {
                assert(expression.text(alternate) =~= inner);
            }
        },
    }
}

/// The tokens of a written expression are the tokens it is written in.
pub proof fn lemma_tokens_of_written<T: NumberType>(expression: Expression<T>, alternate: bool)
    ensures
        tokens_of(expression.text(alternate)) == written(expression, alternate),
{
    let start = Reading { tokens: Seq::empty(), run: Seq::empty(), kind: TokenType::Other };
    lemma_reading_is_fed(expression.text(alternate));
    lemma_fed_expression(start, expression, alternate);
    assert(start.tokens + written(expression, alternate) =~= written(expression, alternate));
}

/// The tokens that a number is written in evaluate to the number.
pub proof fn lemma_numeral_tokens_value<T: NumberType, N: NumberSystem<T>>(
    v: int,
    behind: Seq<Lexeme>,
    system: N,
)
    ensures
        operand_value::<T, N>(numeral_tokens(v) + behind, system) == Some((v, behind)),
{
    let tokens = numeral_tokens(v) + behind;
    if v < 0 {
        lemma_decimal_digits((-v) as nat);
        assert(tokens.skip(2) =~= behind);
    } else {
        lemma_decimal_digits(v as nat);
        assert(tokens.skip(1) =~= behind);
    }
}

/// The first token of a written expression is not the sign of an operator
/// unless it is the minus sign of a number, and so is never a closing
/// bracket.
pub proof fn lemma_written_is_not_empty<T: NumberType>(expression: Expression<T>, alternate: bool)
    ensures
        written(expression, alternate).len() > 0,
    decreases expression,
{
    match expression {
        Expression::Value(t) => {},
        Expression::Application(_, operator, left, right) => {
            lemma_written_is_not_empty(*left, true);
        },
    }
}

/// The tokens that a sound expression is written in as an operand evaluate
/// to the value that the expression holds.
pub proof fn lemma_written_operand_value<T: NumberType, N: NumberSystem<T>>(
    expression: Expression<T>,
    behind: Seq<Lexeme>,
    system: N,
)
    requires
        system.valid(),
        expression.sound(system),
    ensures
        operand_value::<T, N>(written(expression, true) + behind, system) == Some(
            (expression.result(), behind),
        ),
    decreases expression, 1int,
{
    match expression {
        Expression::Value(t) => {
            lemma_numeral_tokens_value::<T, N>(t.value(), behind, system);
        },
        Expression::Application(_, operator, left, right) => {
            let tokens = written(expression, true) + behind;
            let closed = seq![Lexeme::Punctuation(')')] + behind;
            lemma_written_expression_value(expression, closed, system);
            assert(tokens.skip(1) =~= written(expression, false) + closed);
            assert(closed.skip(1) =~= behind);
        },
    }
}

/// The tokens that a sound expression is written in evaluate to the value
/// that the expression holds, where no sign of an operator follows them.
pub proof fn lemma_written_expression_value<T: NumberType, N: NumberSystem<T>>(
    expression: Expression<T>,
    behind: Seq<Lexeme>,
    system: N,
)
    requires
        system.valid(),
        expression.sound(system),
        behind.len() > 0 ==> !(behind[0] matches Lexeme::Punctuation(c) && operator_of_sign(c)
            is Some),
    ensures
        expression_value::<T, N>(written(expression, false) + behind, system) == Some(
            (expression.result(), behind),
        ),
    decreases expression, 0int,
{
    match expression {
        Expression::Value(t) => {
            lemma_numeral_tokens_value::<T, N>(t.value(), behind, system);
        },
        Expression::Application(_, operator, left, right) => {
            let sign = Lexeme::Punctuation(operator.symbol());
            let tokens = written(expression, false) + behind;
            let after_left = seq![sign] + written(*right, true) + behind;
            assert(tokens =~= written(*left, true) + after_left);
            lemma_written_operand_value(*left, after_left, system);
            lemma_written_is_not_empty(*left, true);
            assert(operator_of_sign(operator.symbol()) == Some(operator));
            assert(after_left.skip(1) =~= written(*right, true) + behind);
            lemma_written_operand_value(*right, behind, system);
        },
    }
}

/// A sound expression that is written out and read again evaluates to the
/// value that it holds.
///
/// The text of the expression, with brackets around the whole or without,
/// split into tokens and evaluated in the same number system, gives the
/// value that the expression holds.
pub proof fn lemma_written_expression_evaluates<T: NumberType, N: NumberSystem<T>>(
    expression: Expression<T>,
    alternate: bool,
    system: N,
)
    requires
        system.valid(),
        expression.sound(system),
    ensures
        text_value::<T, N>(expression.text(alternate), system) == Some(expression.result()),
{
    lemma_tokens_of_written(expression, alternate);
    let none = Seq::<Lexeme>::empty();
    if alternate {
        lemma_written_operand_value(expression, none, system);
        assert(written(expression, true) + none =~= written(expression, true));
        lemma_written_is_not_empty(expression, true);
    } else {
        lemma_written_expression_value(expression, none, system);
        assert(written(expression, false) + none =~= written(expression, false));
    }
}

} // verus!
