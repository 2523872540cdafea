//! Every expression over one fixed order of numbers.
use crate::base_types::expressions::{Expression, Operator, Operators};
use crate::base_types::numbers::{fits, CheckedOperations, NumberSystem, NumberType};
use super::subset_permutation_generator::{
    lemma_traversal_values, SubsetPermutationGenerator, Traversal,
};
use crate::timing::caching::CachingTransciever;
use crate::timing::MySender;
use vstd::prelude::*;
use vstd::slice::slice_subrange;

verus! {

/// The application of `operator` to `left` and `right`, where the number
/// system allows it and the application meets the rule for applications;
/// nothing otherwise.
pub open spec fn candidate<T: NumberType, N: NumberSystem<T>>(
    left: Expression<T>,
    right: Expression<T>,
    system: N,
    operator: Operator,
) -> Seq<Expression<T>> {
    match operator.apply_spec(system, left.result(), right.result()) {
        Some(v) => {
            let application = Expression::Application(
                T::number(v),
                operator,
                Box::new(left),
                Box::new(right),
            );
            if v != 0 && application.is_valid_spec() {
                seq![application]
            } else {
                Seq::empty()
            }
        },
        None => Seq::empty(),
    }
}

/// The candidates of `left` and `right` under each of the operators, in the
/// order of the operators.
pub open spec fn applications<T: NumberType, N: NumberSystem<T>>(
    left: Expression<T>,
    right: Expression<T>,
    system: N,
    operators: Seq<Operator>,
) -> Seq<Expression<T>>
    decreases operators.len(),
{
    if operators.len() == 0 {
        Seq::empty()
    } else {
        applications(left, right, system, operators.drop_last()) + candidate(
            left,
            right,
            system,
            operators.last(),
        )
    }
}

/// The applications of `left` to each of the right operands in turn.
pub open spec fn row<T: NumberType, N: NumberSystem<T>>(
    left: Expression<T>,
    rights: Seq<Expression<T>>,
    system: N,
    operators: Seq<Operator>,
) -> Seq<Expression<T>>
    decreases rights.len(),
{
    if rights.len() == 0 {
        Seq::empty()
    } else {
        row(left, rights.drop_last(), system, operators) + applications(
            left,
            rights.last(),
            system,
            operators,
        )
    }
}

/// The rows of each of the left operands in turn.
pub open spec fn cross<T: NumberType, N: NumberSystem<T>>(
    lefts: Seq<Expression<T>>,
    rights: Seq<Expression<T>>,
    system: N,
    operators: Seq<Operator>,
) -> Seq<Expression<T>>
    decreases lefts.len(),
{
    if lefts.len() == 0 {
        Seq::empty()
    } else {
        cross(lefts.drop_last(), rights, system, operators) + row(
            lefts.last(),
            rights,
            system,
            operators,
        )
    }
}

/// Every expression over the numbers in their order: the one leaf for a
/// single number; for more, at each split point in turn, each expression
/// over the numbers before it combined with each expression over the numbers
/// from it on.
pub open spec fn trees<T: NumberType, N: NumberSystem<T>>(
    numbers: Seq<T>,
    system: N,
    operators: Seq<Operator>,
) -> Seq<Expression<T>>
    decreases numbers.len(), numbers.len(),
{
    if numbers.len() == 0 {
        Seq::empty()
    } else if numbers.len() == 1 {
        seq![Expression::Value(numbers[0])]
    } else {
        trees_split_up_to(numbers, system, operators, numbers.len() - 1)
    }
}

/// The expressions over the numbers that split at one of the first `mid`
/// split points.
pub open spec fn trees_split_up_to<T: NumberType, N: NumberSystem<T>>(
    numbers: Seq<T>,
    system: N,
    operators: Seq<Operator>,
    mid: int,
) -> Seq<Expression<T>>
    decreases numbers.len(), mid,
{
    if mid <= 0 || mid >= numbers.len() {
        Seq::empty()
    } else {
        trees_split_up_to(numbers, system, operators, mid - 1) + cross(
            trees(numbers.subrange(0, mid), system, operators),
            trees(numbers.subrange(mid, numbers.len() as int), system, operators),
            system,
            operators,
        )
    }
}

/// What holds of an expression that is built over the given numbers: every
/// value held in it is what the number system yields there, every
/// application in it meets the rule for applications and applies one of the
/// given operators, and its leaves are the numbers in their order.
pub open spec fn well_built<T: NumberType, N: NumberSystem<T>>(
    expression: Expression<T>,
    numbers: Seq<T>,
    system: N,
    operators: Seq<Operator>,
) -> bool {
    &&& expression.sound(system)
    &&& expression.canonical()
    &&& expression.uses_only(operators)
    &&& expression.leaves() == numbers
}

/// Whether each of the expressions is well built over the numbers.
pub open spec fn all_well_built<T: NumberType, N: NumberSystem<T>>(
    expressions: Seq<Expression<T>>,
    numbers: Seq<T>,
    system: N,
    operators: Seq<Operator>,
) -> bool {
    forall|i: int|
        0 <= i < expressions.len() ==> well_built(
            #[trigger] expressions[i],
            numbers,
            system,
            operators,
        )
}

/// A candidate of two well-built expressions is well built over their
/// numbers joined.
pub proof fn lemma_candidate_well_built<T: NumberType, N: NumberSystem<T>>(
    left: Expression<T>,
    right: Expression<T>,
    system: N,
    operator: Operator,
    left_numbers: Seq<T>,
    right_numbers: Seq<T>,
    operators: Seq<Operator>,
)
    requires
        system.valid(),
        well_built(left, left_numbers, system, operators),
        well_built(right, right_numbers, system, operators),
        operators.contains(operator),
    ensures
        all_well_built(
            candidate(left, right, system, operator),
            left_numbers + right_numbers,
            system,
            operators,
        ),
{
    left.lemma_sound_evaluates(system);
    right.lemma_sound_evaluates(system);
    system.results_are_operands(left.result(), right.result());
    match operator.apply_spec(system, left.result(), right.result()) {
        Some(v) => {
            T::number_value(v);
        },
        None => {},
    }
}

/// The applications of two well-built expressions are well built over their
/// numbers joined.
pub proof fn lemma_applications_well_built<T: NumberType, N: NumberSystem<T>>(
    left: Expression<T>,
    right: Expression<T>,
    system: N,
    tried: Seq<Operator>,
    left_numbers: Seq<T>,
    right_numbers: Seq<T>,
    operators: Seq<Operator>,
)
    requires
        system.valid(),
        well_built(left, left_numbers, system, operators),
        well_built(right, right_numbers, system, operators),
        forall|k: int| 0 <= k < tried.len() ==> operators.contains(#[trigger] tried[k]),
    ensures
        all_well_built(
            applications(left, right, system, tried),
            left_numbers + right_numbers,
            system,
            operators,
        ),
    decreases tried.len(),
{
    if tried.len() > 0 {
        lemma_applications_well_built(
            left,
            right,
            system,
            tried.drop_last(),
            left_numbers,
            right_numbers,
            operators,
        );
        lemma_candidate_well_built(
            left,
            right,
            system,
            tried.last(),
            left_numbers,
            right_numbers,
            operators,
        );
    }
}

/// A row of well-built expressions is well built over the numbers joined.
pub proof fn lemma_row_well_built<T: NumberType, N: NumberSystem<T>>(
    left: Expression<T>,
    rights: Seq<Expression<T>>,
    system: N,
    left_numbers: Seq<T>,
    right_numbers: Seq<T>,
    operators: Seq<Operator>,
)
    requires
        system.valid(),
        well_built(left, left_numbers, system, operators),
        all_well_built(rights, right_numbers, system, operators),
    ensures
        all_well_built(
            row(left, rights, system, operators),
            left_numbers + right_numbers,
            system,
            operators,
        ),
    decreases rights.len(),
{
    if rights.len() > 0 {
        lemma_row_well_built(
            left,
            rights.drop_last(),
            system,
            left_numbers,
            right_numbers,
            operators,
        );
        lemma_applications_well_built(
            left,
            rights.last(),
            system,
            operators,
            left_numbers,
            right_numbers,
            operators,
        );
    }
}

/// The cross of well-built expressions is well built over the numbers
/// joined.
pub proof fn lemma_cross_well_built<T: NumberType, N: NumberSystem<T>>(
    lefts: Seq<Expression<T>>,
    rights: Seq<Expression<T>>,
    system: N,
    left_numbers: Seq<T>,
    right_numbers: Seq<T>,
    operators: Seq<Operator>,
)
    requires
        system.valid(),
        all_well_built(lefts, left_numbers, system, operators),
        all_well_built(rights, right_numbers, system, operators),
    ensures
        all_well_built(
            cross(lefts, rights, system, operators),
            left_numbers + right_numbers,
            system,
            operators,
        ),
    decreases lefts.len(),
{
    if lefts.len() > 0 {
        lemma_cross_well_built(
            lefts.drop_last(),
            rights,
            system,
            left_numbers,
            right_numbers,
            operators,
        );
        lemma_row_well_built(
            lefts.last(),
            rights,
            system,
            left_numbers,
            right_numbers,
            operators,
        );
    }
}

/// Every expression built over numbers that the number system takes as
/// operands is well built over them.
pub proof fn lemma_trees_well_built<T: NumberType, N: NumberSystem<T>>(
    numbers: Seq<T>,
    system: N,
    operators: Seq<Operator>,
)
    requires
        system.valid(),
        forall|i: int| 0 <= i < numbers.len() ==> system.accepts(#[trigger] numbers[i].value()),
    ensures
        all_well_built(trees(numbers, system, operators), numbers, system, operators),
    decreases numbers.len(), numbers.len(),
{
    if numbers.len() == 1 {
        assert(seq![numbers[0]] =~= numbers);
    } else if numbers.len() > 1 {
        lemma_splits_well_built(numbers, system, operators, numbers.len() - 1);
    }
}

/// Every expression that splits at one of the first `mid` split points is
/// well built over the numbers.
pub proof fn lemma_splits_well_built<T: NumberType, N: NumberSystem<T>>(
    numbers: Seq<T>,
    system: N,
    operators: Seq<Operator>,
    mid: int,
)
    requires
        system.valid(),
        forall|i: int| 0 <= i < numbers.len() ==> system.accepts(#[trigger] numbers[i].value()),
    ensures
        all_well_built(
            trees_split_up_to(numbers, system, operators, mid),
            numbers,
            system,
            operators,
        ),
    decreases numbers.len(), mid,
{
    if 0 < mid < numbers.len() {
        let before = numbers.subrange(0, mid);
        let after = numbers.subrange(mid, numbers.len() as int);
        lemma_splits_well_built(numbers, system, operators, mid - 1);
        lemma_trees_well_built(before, system, operators);
        lemma_trees_well_built(after, system, operators);
        lemma_cross_well_built(
            trees(before, system, operators),
            trees(after, system, operators),
            system,
            before,
            after,
            operators,
        );
        assert(before + after =~= numbers);
    }
}

/// Whether `expression` is one of the expressions.
pub open spec fn is_built<T: NumberType>(
    expressions: Seq<Expression<T>>,
    expression: Expression<T>,
) -> bool {
    exists|k: int| 0 <= k < expressions.len() && #[trigger] expressions[k] == expression
}

/// An expression has one leaf at least.
pub proof fn lemma_leaves_not_empty<T: NumberType>(expression: Expression<T>)
    ensures
        expression.leaves().len() >= 1,
    decreases expression,
{
    match expression {
        Expression::Value(_) => {},
        Expression::Application(_, _, left, right) => {
            lemma_leaves_not_empty(*left);
            lemma_leaves_not_empty(*right);
        },
    }
}

/// What is among the applications of some of the operators is among the
/// applications of all of them.
pub proof fn lemma_applications_hold<T: NumberType, N: NumberSystem<T>>(
    left: Expression<T>,
    right: Expression<T>,
    system: N,
    operators: Seq<Operator>,
    at: int,
    expression: Expression<T>,
)
    requires
        0 <= at < operators.len(),
        is_built(candidate(left, right, system, operators[at]), expression),
    ensures
        is_built(applications(left, right, system, operators), expression),
    decreases operators.len(),
{
    let fewer = operators.drop_last();
    let before = applications(left, right, system, fewer);
    let last = candidate(left, right, system, operators.last());
    let all = applications(left, right, system, operators);
    if at == operators.len() - 1 {
        let k = choose|k: int| 0 <= k < last.len() && #[trigger] last[k] == expression;
        assert(all[before.len() + k] == expression);
    } else {
        assert(fewer[at] == operators[at]);
        lemma_applications_hold(left, right, system, fewer, at, expression);
        let k = choose|k: int| 0 <= k < before.len() && #[trigger] before[k] == expression;
        assert(all[k] == expression);
    }
}

/// What is among the applications to one of the right operands is in the
/// row.
pub proof fn lemma_row_holds<T: NumberType, N: NumberSystem<T>>(
    left: Expression<T>,
    rights: Seq<Expression<T>>,
    system: N,
    operators: Seq<Operator>,
    at: int,
    expression: Expression<T>,
)
    requires
        0 <= at < rights.len(),
        is_built(applications(left, rights[at], system, operators), expression),
    ensures
        is_built(row(left, rights, system, operators), expression),
    decreases rights.len(),
{
    let fewer = rights.drop_last();
    let before = row(left, fewer, system, operators);
    let last = applications(left, rights.last(), system, operators);
    let all = row(left, rights, system, operators);
    if at == rights.len() - 1 {
        let k = choose|k: int| 0 <= k < last.len() && #[trigger] last[k] == expression;
        assert(all[before.len() + k] == expression);
    } else {
        assert(fewer[at] == rights[at]);
        lemma_row_holds(left, fewer, system, operators, at, expression);
        let k = choose|k: int| 0 <= k < before.len() && #[trigger] before[k] == expression;
        assert(all[k] == expression);
    }
}

/// What is in the row of one of the left operands is in the cross.
pub proof fn lemma_cross_holds<T: NumberType, N: NumberSystem<T>>(
    lefts: Seq<Expression<T>>,
    rights: Seq<Expression<T>>,
    system: N,
    operators: Seq<Operator>,
    at: int,
    expression: Expression<T>,
)
    requires
        0 <= at < lefts.len(),
        is_built(row(lefts[at], rights, system, operators), expression),
    ensures
        is_built(cross(lefts, rights, system, operators), expression),
    decreases lefts.len(),
{
    let fewer = lefts.drop_last();
    let before = cross(fewer, rights, system, operators);
    let last = row(lefts.last(), rights, system, operators);
    let all = cross(lefts, rights, system, operators);
    if at == lefts.len() - 1 {
        let k = choose|k: int| 0 <= k < last.len() && #[trigger] last[k] == expression;
        assert(all[before.len() + k] == expression);
    } else {
        assert(fewer[at] == lefts[at]);
        lemma_cross_holds(fewer, rights, system, operators, at, expression);
        let k = choose|k: int| 0 <= k < before.len() && #[trigger] before[k] == expression;
        assert(all[k] == expression);
    }
}

/// What splits at one of the first split points is among what splits at one
/// of more split points.
pub proof fn lemma_splits_hold<T: NumberType, N: NumberSystem<T>>(
    numbers: Seq<T>,
    system: N,
    operators: Seq<Operator>,
    mid: int,
    up_to: int,
    expression: Expression<T>,
)
    requires
        0 < mid <= up_to < numbers.len(),
        is_built(
            cross(
                trees(numbers.subrange(0, mid), system, operators),
                trees(numbers.subrange(mid, numbers.len() as int), system, operators),
                system,
                operators,
            ),
            expression,
        ),
    ensures
        is_built(trees_split_up_to(numbers, system, operators, up_to), expression),
    decreases up_to - mid,
{
    let all = trees_split_up_to(numbers, system, operators, up_to);
    let before = trees_split_up_to(numbers, system, operators, up_to - 1);
    if mid == up_to {
        let here = cross(
            trees(numbers.subrange(0, mid), system, operators),
            trees(numbers.subrange(mid, numbers.len() as int), system, operators),
            system,
            operators,
        );
        let k = choose|k: int| 0 <= k < here.len() && #[trigger] here[k] == expression;
        assert(all[before.len() + k] == expression);
    } else {
        lemma_splits_hold(numbers, system, operators, mid, up_to - 1, expression);
        let k = choose|k: int| 0 <= k < before.len() && #[trigger] before[k] == expression;
        assert(all[k] == expression);
    }
}

/// Every well-built expression is built.
///
/// An expression whose leaves are the numbers in their order, in which
/// every value is what the number system yields there, and in which every
/// application meets the rule for applications and applies one of the
/// operators, is among the expressions that are built over the numbers.
pub proof fn lemma_well_built_are_built<T: NumberType, N: NumberSystem<T>>(
    expression: Expression<T>,
    numbers: Seq<T>,
    system: N,
    operators: Seq<Operator>,
)
    requires
        system.valid(),
        well_built(expression, numbers, system, operators),
    ensures
        is_built(trees(numbers, system, operators), expression),
    decreases expression,
{
    match expression {
        Expression::Value(t) => {
            assert(numbers[0] == t);
            assert(trees(numbers, system, operators)[0] == expression);
        },
        Expression::Application(value, operator, left, right) => {
            let l = *left;
            let r = *right;
            lemma_leaves_not_empty(l);
            lemma_leaves_not_empty(r);
            let mid = l.leaves().len() as int;
            let n = numbers.len() as int;
            assert(numbers.subrange(0, mid) =~= l.leaves());
            assert(numbers.subrange(mid, n) =~= r.leaves());
            lemma_well_built_are_built(l, l.leaves(), system, operators);
            lemma_well_built_are_built(r, r.leaves(), system, operators);
            let lefts = trees(l.leaves(), system, operators);
            let rights = trees(r.leaves(), system, operators);
            let x = choose|x: int| 0 <= x < lefts.len() && #[trigger] lefts[x] == l;
            let y = choose|y: int| 0 <= y < rights.len() && #[trigger] rights[y] == r;
            let at = choose|at: int| 0 <= at < operators.len() && operators[at] == operator;
            let one = candidate(l, r, system, operator);
            assert(one.len() == 1 && one[0] == expression) by {
                l.lemma_sound_evaluates(system);
                r.lemma_sound_evaluates(system);
                system.results_are_operands(l.result(), r.result());
                T::number_value(value.value());
                value.value_injective(T::number(value.value()));
            }
            assert(is_built(one, expression));
            lemma_applications_hold(l, r, system, operators, at, expression);
            lemma_row_holds(l, rights, system, operators, y, expression);
            lemma_cross_holds(lefts, rights, system, operators, x, expression);
            lemma_splits_hold(numbers, system, operators, mid, n - 1, expression);
        },
    }
}

/// Every expression that is built evaluates to the value it holds.
///
/// Evaluating an expression over numbers that the number system takes as
/// operands again from its leaves, in the same number system, gives the
/// value that the expression holds.
pub proof fn lemma_trees_evaluate_to_their_values<T: NumberType, N: NumberSystem<T>>(
    numbers: Seq<T>,
    system: N,
    operators: Seq<Operator>,
)
    requires
        system.valid(),
        forall|i: int| 0 <= i < numbers.len() ==> system.accepts(#[trigger] numbers[i].value()),
    ensures
        forall|i: int|
            0 <= i < trees(numbers, system, operators).len() ==> (#[trigger] trees(
                numbers,
                system,
                operators,
            )[i]).eval(system) == Some(trees(numbers, system, operators)[i].result()),
{
    lemma_trees_well_built(numbers, system, operators);
    assert forall|i: int| 0 <= i < trees(numbers, system, operators).len() implies (#[trigger] trees(
        numbers,
        system,
        operators,
    )[i]).eval(system) == Some(trees(numbers, system, operators)[i].result()) by {
        trees(numbers, system, operators)[i].lemma_sound_evaluates(system);
    }
}

/// No application in a canonical expression has the value zero, and a
/// canonical expression has the value zero only where it is a leaf that
/// holds zero.
pub proof fn lemma_canonical_values<T: NumberType>(expression: Expression<T>)
    requires
        expression.canonical(),
    ensures
        expression is Application ==> expression.result() != 0,
        (forall|i: int|
            0 <= i < expression.leaves().len() ==> (#[trigger] expression.leaves()[i]).value()
                != 0) ==> expression.result() != 0,
{
    match expression {
        Expression::Value(t) => {
            assert(expression.leaves()[0] == t);
        },
        Expression::Application(_, _, _, _) => {},
    }
}

/// No application that is built has the value zero, and where none of the
/// numbers is zero no expression that is built has the value zero.
pub proof fn lemma_trees_are_not_zero<T: NumberType, N: NumberSystem<T>>(
    numbers: Seq<T>,
    system: N,
    operators: Seq<Operator>,
)
    requires
        system.valid(),
        forall|i: int| 0 <= i < numbers.len() ==> system.accepts(#[trigger] numbers[i].value()),
    ensures
        forall|i: int|
            0 <= i < trees(numbers, system, operators).len() && (#[trigger] trees(
                numbers,
                system,
                operators,
            )[i]) is Application ==> trees(numbers, system, operators)[i].result() != 0,
        (forall|k: int| 0 <= k < numbers.len() ==> (#[trigger] numbers[k]).value() != 0)
            ==> forall|i: int|
            0 <= i < trees(numbers, system, operators).len() ==> (#[trigger] trees(
                numbers,
                system,
                operators,
            )[i]).result() != 0,
{
    lemma_trees_well_built(numbers, system, operators);
    assert forall|i: int| 0 <= i < trees(numbers, system, operators).len() implies ((#[trigger] trees(
        numbers,
        system,
        operators,
    )[i]) is Application ==> trees(numbers, system, operators)[i].result() != 0) && ((forall|
        k: int,
    |
        0 <= k < numbers.len() ==> (#[trigger] numbers[k]).value() != 0) ==> trees(
        numbers,
        system,
        operators,
    )[i].result() != 0) by {
        lemma_canonical_values(trees(numbers, system, operators)[i]);
    }
}

/// No addition or multiplication in an expression that is built has an
/// application of the same operator as its right operand.
pub proof fn lemma_trees_nest_to_the_left<T: NumberType, N: NumberSystem<T>>(
    numbers: Seq<T>,
    system: N,
    operators: Seq<Operator>,
)
    requires
        system.valid(),
        forall|i: int| 0 <= i < numbers.len() ==> system.accepts(#[trigger] numbers[i].value()),
    ensures
        forall|i: int|
            0 <= i < trees(numbers, system, operators).len() ==> (#[trigger] trees(
                numbers,
                system,
                operators,
            )[i]).canonical(),
        forall|i: int|
            0 <= i < trees(numbers, system, operators).len() ==> match #[trigger] trees(
                numbers,
                system,
                operators,
            )[i] {
                Expression::Application(_, operator, _, right) => !((operator == Operator::Add
                    || operator == Operator::Mul) && right.applies(operator)),
                Expression::Value(_) => true,
            },
{
    lemma_trees_well_built(numbers, system, operators);
    assert forall|i: int| 0 <= i < trees(numbers, system, operators).len() implies (#[trigger] trees(
        numbers,
        system,
        operators,
    )[i]).canonical() by {
        assert(well_built(trees(numbers, system, operators)[i], numbers, system, operators));
    }
}

/// The integer that the target stands for, if there is a target.
pub open spec fn target_of<T: NumberType>(only: Option<T>) -> Option<int> {
    match only {
        Some(t) => Some(t.value()),
        None => None,
    }
}

/// Whether the expression is wanted: where there is a target, whether the
/// value of the expression is the target.
pub open spec fn wanted<T: NumberType>(expression: Expression<T>, only: Option<int>) -> bool {
    match only {
        Some(target) => expression.result() == target,
        None => true,
    }
}

/// Those of the expressions that are wanted, in their order.
pub open spec fn matching<T: NumberType>(expressions: Seq<Expression<T>>, only: Option<int>) -> Seq<
    Expression<T>,
>
    decreases expressions.len(),
{
    if expressions.len() == 0 {
        Seq::empty()
    } else {
        matching(expressions.drop_last(), only) + if wanted(expressions.last(), only) {
            seq![expressions.last()]
        } else {
            Seq::empty()
        }
    }
}

/// The wanted expressions among two runs of expressions joined are those
/// among the first run followed by those among the second.
pub proof fn lemma_matching_joined<T: NumberType>(
    first: Seq<Expression<T>>,
    second: Seq<Expression<T>>,
    only: Option<int>,
)
    ensures
        matching(first + second, only) == matching(first, only) + matching(second, only),
    decreases second.len(),
{
    if second.len() == 0 {
        assert(first + second =~= first);
    } else {
        lemma_matching_joined(first, second.drop_last(), only);
        assert((first + second).drop_last() =~= first + second.drop_last());
    }
}

/// Of a single expression, the wanted ones are the expression itself where
/// it is wanted, and none where it is not.
pub proof fn lemma_matching_one<T: NumberType>(expression: Expression<T>, only: Option<int>)
    ensures
        matching(seq![expression], only) == if wanted(expression, only) {
            seq![expression]
        } else {
            Seq::empty()
        },
        matching(Seq::<Expression<T>>::empty(), only) == Seq::<Expression<T>>::empty(),
{
    reveal_with_fuel(matching, 2);
    assert(seq![expression].drop_last() =~= Seq::<Expression<T>>::empty());
    assert(matching(seq![expression], only) =~= if wanted(expression, only) {
        seq![expression]
    } else {
        Seq::empty()
    });
}

/// Without a target every expression is wanted.
pub proof fn lemma_matching_all<T: NumberType>(expressions: Seq<Expression<T>>)
    ensures
        matching(expressions, None) == expressions,
    decreases expressions.len(),
{
    if expressions.len() > 0 {
        lemma_matching_all(expressions.drop_last());
        assert(expressions.drop_last().push(expressions.last()) =~= expressions);
    }
}

/// Sends each wanted application of an allowed operator to the two
/// expressions.
fn send_applications<T: NumberType, N: NumberSystem<T>, M: MySender<Expression<T>>>(
    left_expr: &Expression<T>,
    right_expr: &Expression<T>,
    number_system: &N,
    results: &mut M,
    operators: &Operators,
    only: Option<T>,
)
    requires
        old(results).valid_sender(),
        number_system.valid(),
        number_system.accepts(left_expr.result()),
        number_system.accepts(right_expr.result()),
    ensures
        final(results).valid_sender(),
        final(results).sent() == old(results).sent() + matching(
            applications(*left_expr, *right_expr, *number_system, operators@),
            target_of(only),
        ),
        final(results).done() == old(results).done(),
{
    let left_value = *left_expr.get_value();
    let right_value = *right_expr.get_value();
    let zero = T::zero();
    let mut iterator = operators.into_iter();
    let ghost mut tried: Seq<Operator> = Seq::empty();
    loop
        invariant
            iterator.wf(),
            tried + iterator.remaining() == operators@,
            results.valid_sender(),
            results.done() == old(results).done(),
            results.sent() == old(results).sent() + matching(
                applications(*left_expr, *right_expr, *number_system, tried),
                target_of(only),
            ),
            number_system.valid(),
            number_system.accepts(left_expr.result()),
            number_system.accepts(right_expr.result()),
            left_value == left_expr.stored(),
            right_value == right_expr.stored(),
            zero.value() == 0,
        decreases iterator.remaining().len(),
    {
        let ghost before = results.sent();
        let ghost earlier = applications(*left_expr, *right_expr, *number_system, tried);
        let oper = match iterator.next() {
            Some(oper) => oper,
            None => {
                assert(tried =~= operators@);
                return ;
            },
        };
        proof {
            assert(tried.push(oper).drop_last() =~= tried);
            assert(tried.push(oper) + iterator.remaining() =~= operators@);
            tried = tried.push(oper);
            lemma_matching_joined(
                earlier,
                candidate(*left_expr, *right_expr, *number_system, oper),
                target_of(only),
            );
        }
        if let Some(a) = oper.apply(number_system, left_value, right_value) {
            proof {
                a.value_bounds();
                T::number_value(a.value());
                a.value_injective(T::number(a.value()));
            }
            let is_wanted = match only {
                Some(target) => a.is_equal(target),
                None => true,
            };
            if !a.is_equal(zero) && is_wanted {
                let expr = Expression::Application(
                    a,
                    oper,
                    Box::new(left_expr.clone()),
                    Box::new(right_expr.clone()),
                );
                if expr.is_valid() {
                    results.send(expr);
                }
            }
        }
        proof {
            let one = candidate(*left_expr, *right_expr, *number_system, oper);
            if one.len() > 0 {
                lemma_matching_one(one[0], target_of(only));
                assert(one =~= seq![one[0]]);
            } else {
                assert(one =~= Seq::<Expression<T>>::empty());
            }
            assert(results.sent() =~= before + matching(one, target_of(only)));
        }
    }
}

/// Sends each wanted application of an allowed operator to each of the left
/// expressions and each of the right expressions.
fn send_cross<T: NumberType, N: NumberSystem<T>, M: MySender<Expression<T>>>(
    left: &CachingTransciever<Expression<T>>,
    right: &CachingTransciever<Expression<T>>,
    number_system: &N,
    results: &mut M,
    operators: &Operators,
    only: Option<T>,
)
    requires
        old(results).valid_sender(),
        number_system.valid(),
        forall|i: int|
            0 <= i < left.queue@.len() ==> number_system.accepts(
                (#[trigger] left.queue@[i]).result(),
            ),
        forall|j: int|
            0 <= j < right.queue@.len() ==> number_system.accepts(
                (#[trigger] right.queue@[j]).result(),
            ),
    ensures
        final(results).valid_sender(),
        final(results).sent() == old(results).sent() + matching(
            cross(left.queue@, right.queue@, *number_system, operators@),
            target_of(only),
        ),
        final(results).done() == old(results).done(),
{
    let lefts = left.as_ref();
    let rights = right.as_ref();
    let ghost goal = target_of(only);
    let mut i: usize = 0;
    while i < lefts.len()
        invariant
            i <= lefts@.len(),
            lefts@ == left.queue@,
            rights@ == right.queue@,
            goal == target_of(only),
            results.valid_sender(),
            results.done() == old(results).done(),
            results.sent() == old(results).sent() + matching(
                cross(lefts@.take(i as int), rights@, *number_system, operators@),
                goal,
            ),
            number_system.valid(),
            forall|i: int|
                0 <= i < lefts@.len() ==> number_system.accepts((#[trigger] lefts@[i]).result()),
            forall|j: int|
                0 <= j < rights@.len() ==> number_system.accepts(
                    (#[trigger] rights@[j]).result(),
                ),
        decreases lefts@.len() - i,
    {
        let left_expr = &lefts[i];
        let ghost before = results.sent();
        let mut j: usize = 0;
        while j < rights.len()
            invariant
                i < lefts@.len(),
                j <= rights@.len(),
                *left_expr == lefts@[i as int],
                goal == target_of(only),
                results.valid_sender(),
                results.done() == old(results).done(),
                results.sent() == before + matching(
                    row(*left_expr, rights@.take(j as int), *number_system, operators@),
                    goal,
                ),
                number_system.valid(),
                number_system.accepts(left_expr.result()),
                forall|j: int|
                    0 <= j < rights@.len() ==> number_system.accepts(
                        (#[trigger] rights@[j]).result(),
                    ),
            decreases rights@.len() - j,
        {
            let right_expr = &rights[j];
            send_applications(left_expr, right_expr, number_system, results, operators, only);
            proof {
                assert(rights@.take(j + 1).drop_last() =~= rights@.take(j as int));
                lemma_matching_joined(
                    row(*left_expr, rights@.take(j as int), *number_system, operators@),
                    applications(*left_expr, *right_expr, *number_system, operators@),
                    goal,
                );
                assert(results.sent() =~= before + matching(
                    row(*left_expr, rights@.take(j + 1), *number_system, operators@),
                    goal,
                ));
            }
            j = j + 1;
        }
        proof {
            assert(rights@.take(j as int) =~= rights@);
            assert(lefts@.take(i + 1).drop_last() =~= lefts@.take(i as int));
            lemma_matching_joined(
                cross(lefts@.take(i as int), rights@, *number_system, operators@),
                row(*left_expr, rights@, *number_system, operators@),
                goal,
            );
            assert(results.sent() =~= old(results).sent() + matching(
                cross(lefts@.take(i + 1), rights@, *number_system, operators@),
                goal,
            ));
        }
        i = i + 1;
    }
    proof {
        assert(lefts@.take(i as int) =~= lefts@);
    }
}

/// Sends every wanted expression over the source numbers, in their order,
/// to `results`: every expression where there is no target, and those whose
/// value is the target where there is one.
pub fn generate_tree_where<T: NumberType, N: NumberSystem<T>, M: MySender<Expression<T>>>(
    source_numbers: &[T],
    number_system: &N,
    results: &mut M,
    operators: &Operators,
    only: Option<T>,
)
    requires
        old(results).valid_sender(),
        number_system.valid(),
        forall|i: int|
            0 <= i < source_numbers@.len() ==> number_system.accepts(
                #[trigger] source_numbers@[i].value(),
            ),
    ensures
        final(results).valid_sender(),
        final(results).sent() == old(results).sent() + matching(
            trees(source_numbers@, *number_system, operators@),
            target_of(only),
        ),
        final(results).done() == old(results).done(),
    decreases source_numbers@.len(),
{
    let ghost goal = target_of(only);
    if source_numbers.len() == 1 {
        let leaf = source_numbers[0];
        let is_wanted = match only {
            Some(target) => leaf.is_equal(target),
            None => true,
        };
        proof {
            lemma_matching_one(Expression::Value(leaf), goal);
        }
        if is_wanted {
            results.send(Expression::Value(leaf));
        }
        proof {
            assert(results.sent() =~= old(results).sent() + matching(
                seq![Expression::Value(leaf)],
                goal,
            ));
        }
        return ;
    }
    let mut left = CachingTransciever::default();
    let mut right = CachingTransciever::default();
    let mut mid: usize = 1;
    while mid < source_numbers.len()
        invariant
            1 <= mid,
            mid <= source_numbers@.len() || source_numbers@.len() == 0,
            source_numbers@.len() != 1,
            goal == target_of(only),
            left.queue@.len() == 0,
            right.queue@.len() == 0,
            results.valid_sender(),
            results.done() == old(results).done(),
            results.sent() == old(results).sent() + matching(
                trees_split_up_to(source_numbers@, *number_system, operators@, mid - 1),
                goal,
            ),
            number_system.valid(),
            forall|i: int|
                0 <= i < source_numbers@.len() ==> number_system.accepts(
                    #[trigger] source_numbers@[i].value(),
                ),
        decreases source_numbers@.len() - mid,
    {
        let l = slice_subrange(source_numbers, 0, mid);
        let r = slice_subrange(source_numbers, mid, source_numbers.len());
        generate_tree_where(l, number_system, &mut left, operators, None);
        generate_tree_where(r, number_system, &mut right, operators, None);
        proof {
            lemma_matching_all(trees(l@, *number_system, operators@));
            lemma_matching_all(trees(r@, *number_system, operators@));
            assert(left.queue@ =~= trees(l@, *number_system, operators@));
            assert(right.queue@ =~= trees(r@, *number_system, operators@));
            lemma_trees_well_built(l@, *number_system, operators@);
            lemma_trees_well_built(r@, *number_system, operators@);
            assert forall|i: int| 0 <= i < left.queue@.len() implies number_system.accepts(
                (#[trigger] left.queue@[i]).result(),
            ) by {
                left.queue@[i].lemma_sound_evaluates(*number_system);
            }
            assert forall|j: int| 0 <= j < right.queue@.len() implies number_system.accepts(
                (#[trigger] right.queue@[j]).result(),
            ) by {
                right.queue@[j].lemma_sound_evaluates(*number_system);
            }
            lemma_matching_joined(
                trees_split_up_to(source_numbers@, *number_system, operators@, mid - 1),
                cross(left.queue@, right.queue@, *number_system, operators@),
                goal,
            );
        }
        send_cross(&left, &right, number_system, results, operators, only);
        left.as_mut().clear();
        right.as_mut().clear();
        mid = mid + 1;
    }
}

/// Sends every expression over the source numbers, in their order, to
/// `results`.
///
/// A single number gives the one leaf. More numbers are split at each point
/// in turn; each expression over the numbers before the point is combined
/// with each expression over the numbers from the point on under each
/// allowed operator, and the application is sent where the number system
/// yields a value for it and it meets the rule for applications.
///
/// Every expression sent is well built: it evaluates to the value it holds,
/// no application in it has the value zero, and no addition or
/// multiplication in it has an application of the same operator as its
/// right operand.
pub fn generate_tree<T: NumberType, N: NumberSystem<T>, M: MySender<Expression<T>>>(
    source_numbers: &[T],
    number_system: &N,
    results: &mut M,
    operators: &Operators,
)
    requires
        old(results).valid_sender(),
        number_system.valid(),
        forall|i: int|
            0 <= i < source_numbers@.len() ==> number_system.accepts(
                #[trigger] source_numbers@[i].value(),
            ),
    ensures
        final(results).valid_sender(),
        final(results).sent() == old(results).sent() + trees(
            source_numbers@,
            *number_system,
            operators@,
        ),
        final(results).done() == old(results).done(),
        all_well_built(
            trees(source_numbers@, *number_system, operators@),
            source_numbers@,
            *number_system,
            operators@,
        ),
{
    proof {
        lemma_trees_well_built(source_numbers@, *number_system, operators@);
        lemma_matching_all(trees(source_numbers@, *number_system, operators@));
    }
    generate_tree_where(source_numbers, number_system, results, operators, None);
}

/// Every expression over each of the orderings in turn.
pub open spec fn built<T: NumberType, N: NumberSystem<T>>(
    orderings: Seq<Seq<T>>,
    system: N,
    operators: Seq<Operator>,
) -> Seq<Expression<T>>
    decreases orderings.len(),
{
    if orderings.len() == 0 {
        Seq::empty()
    } else {
        built(orderings.drop_last(), system, operators) + trees(
            orderings.last(),
            system,
            operators,
        )
    }
}

/// Every expression over some of the source numbers, in some order, whose
/// value is the target: for each ordering of each way of taking some of the
/// numbers in turn, the expressions over it that have the target as their
/// value.
pub open spec fn found<T: NumberType, N: NumberSystem<T>>(
    source_numbers: Seq<T>,
    system: N,
    target: int,
    operators: Seq<Operator>,
) -> Seq<Expression<T>> {
    matching(
        built(Traversal::of(source_numbers).remaining(), system, operators),
        Some(target),
    )
}

/// Every wanted expression is one of the expressions it was picked from and
/// is wanted: what holds of each of these holds of each wanted one.
pub proof fn lemma_matching_members<T: NumberType>(
    expressions: Seq<Expression<T>>,
    only: Option<int>,
    good: spec_fn(Expression<T>) -> bool,
)
    requires
        forall|i: int| 0 <= i < expressions.len() ==> good(#[trigger] expressions[i]),
    ensures
        forall|i: int|
            0 <= i < matching(expressions, only).len() ==> good(
                #[trigger] matching(expressions, only)[i],
            ) && wanted(matching(expressions, only)[i], only),
    decreases expressions.len(),
{
    if expressions.len() > 0 {
        let before = expressions.drop_last();
        assert forall|i: int| 0 <= i < before.len() implies good(#[trigger] before[i]) by {
            assert(before[i] == expressions[i]);
        }
        lemma_matching_members(before, only, good);
        assert(good(expressions[expressions.len() - 1]));
        let first = matching(before, only);
        assert forall|i: int| 0 <= i < matching(expressions, only).len() implies good(
            #[trigger] matching(expressions, only)[i],
        ) && wanted(matching(expressions, only)[i], only) by {
            if i < first.len() {
                assert(matching(expressions, only)[i] == first[i]);
            } else {
                assert(matching(expressions, only)[i] == expressions.last());
            }
        }
    }
}

/// Every expression built over one of the orderings is sound and canonical
/// and applies the given operators only, where the number system takes the
/// numbers of the orderings as operands.
pub proof fn lemma_built_members<T: NumberType, N: NumberSystem<T>>(
    orderings: Seq<Seq<T>>,
    system: N,
    operators: Seq<Operator>,
)
    requires
        system.valid(),
        all_accepted(orderings, system),
    ensures
        forall|i: int|
            0 <= i < built(orderings, system, operators).len() ==> (#[trigger] built(
                orderings,
                system,
                operators,
            )[i]).sound(system) && built(orderings, system, operators)[i].canonical() && built(
                orderings,
                system,
                operators,
            )[i].uses_only(operators),
    decreases orderings.len(),
{
    if orderings.len() > 0 {
        let before = orderings.drop_last();
        let last = orderings.last();
        assert(all_accepted(before, system)) by {
            assert forall|k: int, i: int|
                0 <= k < before.len() && 0 <= i < before[k].len() implies system.accepts(
                #[trigger] before[k][i].value(),
            ) by {
                assert(before[k][i] == orderings[k][i]);
            }
        }
        lemma_built_members(before, system, operators);
        assert forall|i: int| 0 <= i < last.len() implies system.accepts(
            #[trigger] last[i].value(),
        ) by {
            assert(last[i] == orderings[orderings.len() - 1][i]);
        }
        lemma_trees_well_built(last, system, operators);
        let first = built(before, system, operators);
        let all = built(orderings, system, operators);
        let more = trees(last, system, operators);
        assert forall|i: int| 0 <= i < all.len() implies (#[trigger] all[i]).sound(system)
            && all[i].canonical() && all[i].uses_only(operators) by {
            if i < first.len() {
                assert(all[i] == first[i]);
            } else {
                assert(all[i] == more[i - first.len()]);
                assert(well_built(more[i - first.len()], last, system, operators));
            }
        }
    }
}

/// Every expression that the search finds has the target as its value,
/// evaluates to it, is canonical and applies the given operators only.
pub proof fn lemma_found_hit_the_target<T: NumberType, N: NumberSystem<T>>(
    source_numbers: Seq<T>,
    system: N,
    target: int,
    operators: Seq<Operator>,
)
    requires
        system.valid(),
        source_numbers.len() <= usize::MAX,
        forall|i: int|
            0 <= i < source_numbers.len() ==> system.accepts(#[trigger] source_numbers[i].value()),
    ensures
        forall|i: int|
            0 <= i < found(source_numbers, system, target, operators).len() ==> {
                let expression = #[trigger] found(source_numbers, system, target, operators)[i];
                &&& expression.result() == target
                &&& expression.eval(system) == Some(target)
                &&& expression.sound(system)
                &&& expression.canonical()
                &&& expression.uses_only(operators)
            },
{
    let orderings = Traversal::of(source_numbers).remaining();
    lemma_traversal_values(source_numbers, |t: T| system.accepts(t.value()));
    lemma_built_members(orderings, system, operators);
    let good = |e: Expression<T>| e.sound(system) && e.canonical() && e.uses_only(operators);
    lemma_matching_members(built(orderings, system, operators), Some(target), good);
    let all = found(source_numbers, system, target, operators);
    assert forall|i: int| 0 <= i < all.len() implies {
        let expression = #[trigger] all[i];
        &&& expression.result() == target
        &&& expression.eval(system) == Some(target)
        &&& expression.sound(system)
        &&& expression.canonical()
        &&& expression.uses_only(operators)
    } by {
        assert(good(all[i]));
        all[i].lemma_sound_evaluates(system);
    }
}

/// Whether each number of each ordering is an operand of the number system.
pub open spec fn all_accepted<T: NumberType, N: NumberSystem<T>>(
    orderings: Seq<Seq<T>>,
    system: N,
) -> bool {
    forall|k: int, i: int|
        0 <= k < orderings.len() && 0 <= i < orderings[k].len() ==> system.accepts(
            #[trigger] orderings[k][i].value(),
        )
}

/// Sends every expression over some of the source numbers, in some order,
/// whose value is the target number to the sender, and then tells the
/// sender that no more will come.
pub fn find_expressions<T: NumberType, N: NumberSystem<T>, M: MySender<Expression<T>>>(
    source_numbers: Vec<T>,
    number_system: &N,
    target_number: T,
    operators: &Operators,
    sender: &mut M,
)
    requires
        old(sender).valid_sender(),
        number_system.valid(),
        forall|i: int|
            0 <= i < source_numbers@.len() ==> number_system.accepts(
                #[trigger] source_numbers@[i].value(),
            ),
    ensures
        final(sender).valid_sender(),
        final(sender).sent() == old(sender).sent() + found(
            source_numbers@,
            *number_system,
            target_number.value(),
            operators@,
        ),
        final(sender).done(),
{
    let ghost source = source_numbers@;
    let ghost goal = Some(target_number.value());
    assert(source.len() == source_numbers.len());
    let mut generator = SubsetPermutationGenerator::new(source_numbers);
    let ghost all = generator@.remaining();
    let ghost mut yielded: Seq<Seq<T>> = Seq::empty();
    proof {
        lemma_traversal_values(source, |t: T| number_system.accepts(t.value()));
    }
    loop
        invariant
            generator@.wf(),
            sender.valid_sender(),
            number_system.valid(),
            goal == Some(target_number.value()),
            yielded + generator@.remaining() == all,
            all_accepted(all, *number_system),
            sender.sent() == old(sender).sent() + matching(
                built(yielded, *number_system, operators@),
                goal,
            ),
        ensures
            sender.valid_sender(),
            sender.sent() == old(sender).sent() + matching(
                built(all, *number_system, operators@),
                goal,
            ),
        decreases generator@.remaining().len(),
    {
        let ghost left = generator@.remaining();
        match generator.next() {
            Some(permutation) => {
                proof {
                    assert(yielded.push(permutation@) + generator@.remaining() =~= yielded
                        + left);
                    assert(all[yielded.len() as int] == permutation@);
                    assert forall|i: int| 0 <= i < permutation@.len() implies number_system.accepts(
                        #[trigger] permutation@[i].value(),
                    ) by {
                        assert(all[yielded.len() as int][i] == permutation@[i]);
                    }
                    lemma_matching_joined(
                        built(yielded, *number_system, operators@),
                        trees(permutation@, *number_system, operators@),
                        goal,
                    );
                }
                generate_tree_where(
                    permutation.as_slice(),
                    number_system,
                    sender,
                    operators,
                    Some(target_number),
                );
                proof {
                    assert(yielded.push(permutation@).drop_last() =~= yielded);
                    yielded = yielded.push(permutation@);
                    assert(sender.sent() =~= old(sender).sent() + matching(
                        built(yielded, *number_system, operators@),
                        goal,
                    ));
                }
            },
            None => {
                proof {
                    assert(yielded + left =~= yielded);
                }
                break ;
            },
        }
    }
    sender.set_done();
}

} // verus!
