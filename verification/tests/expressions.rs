use rust_countdown::base_types::expressions::{Expression, Operator, Operators};
use rust_countdown::base_types::numbers::{ModularNumberSystem, NormalNumberSystem};
use rust_countdown::generators::expression_tree_generator::{
    find_expressions, generate_tree, generate_tree_where,
};
use rust_countdown::timing::caching::CachingTransciever;

fn leaf(n: u32) -> Box<Expression<u32>> {
    Box::new(Expression::Value(n))
}

fn collect(operators: &Operators) -> Vec<Operator> {
    let mut iterator = operators.into_iter();
    let mut all = Vec::new();
    while let Some(operator) = iterator.next() {
        all.push(operator);
    }
    all
}

#[test]
fn operators_come_in_the_order_of_their_bits() {
    assert_eq!(
        collect(&Operators::all()),
        vec![Operator::Add, Operator::Sub, Operator::Mul, Operator::Div]
    );
    let some = Operators::from_iter(vec![Operator::Div, Operator::Add, Operator::Div]);
    assert_eq!(collect(&some), vec![Operator::Add, Operator::Div]);
    assert_eq!(collect(&Operators::from_iter(vec![])), vec![]);
}

#[test]
fn operators_and_their_bits_stand_for_each_other() {
    for operator in [Operator::Add, Operator::Sub, Operator::Mul, Operator::Div] {
        assert_eq!(Operator::from_bit(operator.bit()), Some(operator));
    }
    assert_eq!(Operator::Add.bit(), 1);
    assert_eq!(Operator::Sub.bit(), 2);
    assert_eq!(Operator::Mul.bit(), 4);
    assert_eq!(Operator::Div.bit(), 8);
    assert_eq!(Operator::from_bit(0), None);
    assert_eq!(Operator::from_bit(3), None);
    assert_eq!(Operator::from_bit(16), None);
}

#[test]
fn operators_apply_through_the_number_system() {
    let system = NormalNumberSystem;
    assert_eq!(Operator::Add.apply(&system, 5u8, 4), Some(9));
    assert_eq!(Operator::Sub.apply(&system, 5u8, 4), Some(1));
    assert_eq!(Operator::Mul.apply(&system, 5u8, 4), Some(20));
    assert_eq!(Operator::Div.apply(&system, 9u8, 4), Some(2));
    assert_eq!(Operator::Div.apply(&system, 4u8, 9), None);
}

#[test]
fn applications_are_valid_by_their_top() {
    let sum = Expression::Application(9, Operator::Add, leaf(5), leaf(4));
    assert!(sum.is_valid());
    assert!(Expression::Value(0u32).is_valid());
    let zero = Expression::Application(0, Operator::Sub, leaf(3), leaf(3));
    assert!(!zero.is_valid());
    let right_nested = Expression::Application(
        12,
        Operator::Add,
        leaf(3),
        Box::new(Expression::Application(9, Operator::Add, leaf(5), leaf(4))),
    );
    assert!(!right_nested.is_valid());
    let left_nested = Expression::Application(
        12,
        Operator::Add,
        Box::new(Expression::Application(9, Operator::Add, leaf(5), leaf(4))),
        leaf(3),
    );
    assert!(left_nested.is_valid());
    let mixed = Expression::Application(
        27,
        Operator::Mul,
        leaf(3),
        Box::new(Expression::Application(9, Operator::Add, leaf(5), leaf(4))),
    );
    assert!(mixed.is_valid());
    let subtraction = Expression::Application(
        4,
        Operator::Sub,
        leaf(9),
        Box::new(Expression::Application(5, Operator::Sub, leaf(9), leaf(4))),
    );
    assert!(subtraction.is_valid());
}

#[test]
fn expressions_evaluate_again_to_their_value() {
    let system = NormalNumberSystem;
    let e = Expression::Application(
        18,
        Operator::Mul,
        Box::new(Expression::Application(9, Operator::Add, leaf(5), leaf(4))),
        leaf(2),
    );
    assert_eq!(*e.get_value(), 18);
    assert_eq!(e.re_eval(&system), 18);
    assert!(e.check(&system));
    let wrong = Expression::Application(
        17,
        Operator::Mul,
        Box::new(Expression::Application(9, Operator::Add, leaf(5), leaf(4))),
        leaf(2),
    );
    assert_eq!(wrong.re_eval(&system), 18);
    assert!(!wrong.check(&system));
}

#[test]
fn expressions_are_written_with_brackets_around_operands() {
    let e = Expression::Application(
        15,
        Operator::Sub,
        Box::new(Expression::Application(
            18,
            Operator::Mul,
            Box::new(Expression::Application(9, Operator::Add, leaf(5), leaf(4))),
            leaf(2),
        )),
        leaf(3),
    );
    assert_eq!(e.to_string(), "((5 + 4) * 2) - 3");
    assert_eq!(e.render(true), "(((5 + 4) * 2) - 3)");
    assert_eq!(Expression::Value(-7i32).to_string(), "-7");
    assert_eq!(
        e.describe(),
        "App Sub (App Mul (App Add (Val 5) (Val 4)) (Val 2)) (Val 3)"
    );
    assert_eq!(Operator::Div.to_string(), "/");
    assert_eq!(Operator::Mul.describe(), "Mul");
    let copy = e.clone();
    assert_eq!(copy.to_string(), e.to_string());
}

#[test]
fn trees_over_two_numbers() {
    let mut results = CachingTransciever::default();
    generate_tree(&[5u32, 4], &NormalNumberSystem, &mut results, &Operators::all());
    let values: Vec<u32> = results.as_ref().iter().map(|e| *e.get_value()).collect();
    assert_eq!(values, vec![9, 1, 20, 1]);
    for e in results.as_ref().iter() {
        assert!(e.check(&NormalNumberSystem));
        assert!(matches!(e, Expression::Application(_, _, _, _)));
    }
    assert!(matches!(
        results.as_ref()[3],
        Expression::Application(1, Operator::Div, _, _)
    ));
}

#[test]
fn trees_over_three_numbers_leave_out_the_right_nested_ones() {
    let mut results = CachingTransciever::default();
    let operators = Operators::from_iter(vec![Operator::Add, Operator::Sub]);
    generate_tree(&[9u32, 5, 3], &NormalNumberSystem, &mut results, &operators);
    let texts: Vec<String> = results.as_ref().iter().map(|e| e.to_string()).collect();
    assert_eq!(
        texts,
        vec!["9 - (5 + 3)", "9 + (5 - 3)", "9 - (5 - 3)", "(9 + 5) + 3", "(9 + 5) - 3", "(9 - 5) + 3", "(9 - 5) - 3"]
    );
}

#[test]
fn trees_over_one_number_and_over_none() {
    let mut results = CachingTransciever::default();
    generate_tree(&[0u32], &NormalNumberSystem, &mut results, &Operators::all());
    assert_eq!(results.as_ref().len(), 1);
    assert!(matches!(results.as_ref()[0], Expression::Value(0)));
    let mut none = CachingTransciever::<Expression<u32>>::default();
    generate_tree(&[], &NormalNumberSystem, &mut none, &Operators::all());
    assert_eq!(none.as_ref().len(), 0);
}

#[test]
fn trees_with_a_target_are_the_trees_that_hit_it() {
    let numbers = [7u32, 5, 3, 2];
    let mut all = CachingTransciever::default();
    generate_tree(&numbers, &NormalNumberSystem, &mut all, &Operators::all());
    let mut hits = CachingTransciever::default();
    generate_tree_where(&numbers, &NormalNumberSystem, &mut hits, &Operators::all(), Some(12));
    let expected: Vec<String> = all
        .as_ref()
        .iter()
        .filter(|e| *e.get_value() == 12)
        .map(|e| e.describe())
        .collect();
    let found: Vec<String> = hits.as_ref().iter().map(|e| e.describe()).collect();
    assert!(!found.is_empty());
    assert_eq!(found, expected);
}

#[test]
fn every_tree_is_sound_and_canonical() {
    fn canonical(e: &Expression<u32>) -> bool {
        match e {
            Expression::Value(_) => true,
            Expression::Application(_, _, left, right) => {
                e.is_valid() && canonical(left) && canonical(right)
            }
        }
    }
    let mut results = CachingTransciever::default();
    generate_tree(&[8u32, 6, 4, 3, 2], &NormalNumberSystem, &mut results, &Operators::all());
    assert!(results.as_ref().len() > 100);
    for e in results.as_ref().iter() {
        assert!(e.check(&NormalNumberSystem));
        assert!(canonical(e));
        assert_ne!(*e.get_value(), 0);
    }
}

#[test]
fn search_finds_expressions_for_ten() {
    let mut results = CachingTransciever::default();
    find_expressions(
        vec![5u32, 4, 3, 2, 1],
        &NormalNumberSystem,
        10,
        &Operators::all(),
        &mut results,
    );
    assert!(results.done);
    assert!(results.as_ref().len() > 0);
    let mut texts = Vec::new();
    for e in results.as_ref().iter() {
        assert_eq!(*e.get_value(), 10);
        assert!(e.check(&NormalNumberSystem));
        texts.push(e.to_string());
    }
    assert!(texts.contains(&"(5 + 4) + 1".to_string()));
    assert!(texts.contains(&"(5 * 4) / 2".to_string()));
    assert!(texts.contains(&"((4 * (5 - 2)) - 3) + 1".to_string()));
    assert!(texts.contains(&"(5 + 3) + 2".to_string()));
}

#[test]
fn search_finds_nothing_where_the_difference_is_zero() {
    let mut results = CachingTransciever::default();
    let operators = Operators::from_iter(vec![Operator::Sub]);
    find_expressions(vec![3u32, 3], &NormalNumberSystem, 0, &operators, &mut results);
    assert!(results.done);
    assert_eq!(results.as_ref().len(), 0);
}

#[test]
fn search_under_a_prime_modulus_divides() {
    let operators = Operators::from_iter(vec![Operator::Div]);
    let system = ModularNumberSystem::new(7u32);
    let mut results = CachingTransciever::default();
    find_expressions(vec![2u32, 3], &system, 3, &operators, &mut results);
    let texts: Vec<String> = results.as_ref().iter().map(|e| e.to_string()).collect();
    assert_eq!(texts, vec!["3", "3 / 2"]);
    let mut twos = CachingTransciever::default();
    find_expressions(vec![2u32, 3], &system, 2, &operators, &mut twos);
    let texts: Vec<String> = twos.as_ref().iter().map(|e| e.to_string()).collect();
    assert_eq!(texts, vec!["2", "2 / 3"]);
    let mut fives = CachingTransciever::default();
    find_expressions(vec![2u32, 3], &system, 5, &operators, &mut fives);
    assert_eq!(fives.as_ref().len(), 0);
}

#[test]
fn search_under_a_composite_modulus_never_divides() {
    let operators = Operators::from_iter(vec![Operator::Div]);
    let system = ModularNumberSystem::new(6u32);
    for target in 0..6 {
        let mut results = CachingTransciever::default();
        find_expressions(vec![2u32, 3], &system, target, &operators, &mut results);
        for e in results.as_ref().iter() {
            assert!(matches!(e, Expression::Value(_)));
        }
    }
}

#[test]
fn search_keeps_what_the_sender_held() {
    let mut results = CachingTransciever::default();
    find_expressions(vec![4u32, 2], &NormalNumberSystem, 2, &Operators::all(), &mut results);
    let first: Vec<String> = results.as_ref().iter().map(|e| e.to_string()).collect();
    assert_eq!(first, vec!["2", "4 - 2", "4 / 2"]);
    find_expressions(vec![4u32, 2], &NormalNumberSystem, 8, &Operators::all(), &mut results);
    let both: Vec<String> = results.as_ref().iter().map(|e| e.to_string()).collect();
    assert_eq!(both, vec!["2", "4 - 2", "4 / 2", "4 * 2"]);
}
