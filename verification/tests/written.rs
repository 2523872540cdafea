use rust_countdown::base_types::expressions::{Expression, Operators};
use rust_countdown::base_types::numbers::{ModularNumberSystem, NormalNumberSystem, NumberSystem};
use rust_countdown::generators::expression_tree_generator::generate_tree;
use rust_countdown::parsing::token_reader::read;
use rust_countdown::parsing::{operator_from_sign, Token};
use rust_countdown::timing::caching::CachingTransciever;

// An evaluator of written expressions that shares nothing with the way the
// expressions write themselves out.
fn operand<N: NumberSystem<i64>>(tokens: &[Token], at: &mut usize, system: &N) -> Option<i64> {
    match tokens.get(*at)? {
        Token::Number(digits) => {
            *at += 1;
            digits.parse().ok()
        }
        Token::Punctuation('-') => match tokens.get(*at + 1)? {
            Token::Number(digits) => {
                *at += 2;
                digits.parse::<i64>().ok().map(|n| -n)
            }
            _ => None,
        },
        Token::Punctuation('(') => {
            *at += 1;
            let value = expression(tokens, at, system)?;
            match tokens.get(*at)? {
                Token::Punctuation(')') => {
                    *at += 1;
                    Some(value)
                }
                _ => None,
            }
        }
        _ => None,
    }
}

fn expression<N: NumberSystem<i64>>(tokens: &[Token], at: &mut usize, system: &N) -> Option<i64> {
    let left = operand(tokens, at, system)?;
    let operator = match tokens.get(*at) {
        Some(Token::Punctuation(c)) => operator_from_sign(*c),
        _ => None,
    };
    match operator {
        Some(operator) => {
            *at += 1;
            let right = operand(tokens, at, system)?;
            operator.apply(system, left, right)
        }
        None => Some(left),
    }
}

fn value_of_text<N: NumberSystem<i64>>(text: String, system: &N) -> Option<i64> {
    let tokens = read(text).unwrap();
    let mut at = 0;
    let value = expression(&tokens, &mut at, system)?;
    if at == tokens.len() {
        Some(value)
    } else {
        None
    }
}

fn all_trees<N: NumberSystem<i64>>(numbers: &[i64], system: &N) -> Vec<Expression<i64>> {
    let mut results = CachingTransciever::default();
    generate_tree(numbers, system, &mut results, &Operators::all());
    results.as_ref().iter().cloned().collect()
}

#[test]
fn written_expressions_evaluate_to_their_values() {
    let trees = all_trees(&[9, 7, 4, 2], &NormalNumberSystem);
    assert!(trees.len() > 50);
    for e in trees.iter() {
        assert_eq!(value_of_text(e.to_string(), &NormalNumberSystem), Some(*e.get_value()));
        assert_eq!(value_of_text(e.render(true), &NormalNumberSystem), Some(*e.get_value()));
    }
}

#[test]
fn written_expressions_with_numbers_below_zero_evaluate_to_their_values() {
    let trees = all_trees(&[6, -3, -5], &NormalNumberSystem);
    assert!(trees.len() > 5);
    let mut texts = Vec::new();
    for e in trees.iter() {
        assert_eq!(value_of_text(e.to_string(), &NormalNumberSystem), Some(*e.get_value()));
        texts.push(e.to_string());
    }
    assert!(texts.contains(&"6 - (-3 + -5)".to_string()));
}

#[test]
fn written_expressions_evaluate_to_their_values_under_a_modulus() {
    let system = ModularNumberSystem::new(11i64);
    let trees = all_trees(&[10, 7, 3], &system);
    assert!(trees.len() > 20);
    for e in trees.iter() {
        assert_eq!(value_of_text(e.to_string(), &system), Some(*e.get_value()));
    }
}
