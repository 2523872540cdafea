//! Expressions are the base of the countdown problem.
use super::numbers::{fits, same_result, CheckedOperations, NumberSystem, NumberType};
use super::numerals::{numeral, write_numeral};
use vstd::prelude::*;
use vstd::string::StringExecFns;

verus! {

/// Operator type represents an arithmetic binary operation.
#[derive(Clone, Copy, Debug, PartialEq, Eq, Structural)]
pub enum Operator {
    /// This is addition `(+)`
    Add,
    /// This is subtraction `(-)`
    Sub,
    /// This is multiplication `(*)`
    Mul,
    /// This is division `(/)`
    Div,
}

impl Operator {
    /// The single bit that stands for the operator in a set of operators.
    pub open spec fn bit_spec(self) -> u8 {
        match self {
            Operator::Add => 1,
            Operator::Sub => 2,
            Operator::Mul => 4,
            Operator::Div => 8,
        }
    }

    /// The single bit that stands for the operator in a set of operators.
    pub fn bit(self) -> (b: u8)
        ensures
            b == self.bit_spec(),
    {
        match self {
            Operator::Add => 1,
            Operator::Sub => 2,
            Operator::Mul => 4,
            Operator::Div => 8,
        }
    }

    /// The operator that a bit stands for, if it stands for one.
    pub fn from_bit(bit: u8) -> (r: Option<Operator>)
        ensures
            match r {
                Some(operator) => operator.bit_spec() == bit,
                None => forall|operator: Operator| operator.bit_spec() != bit,
            },
    {
        if bit == 1 {
            Some(Operator::Add)
        } else if bit == 2 {
            Some(Operator::Sub)
        } else if bit == 4 {
            Some(Operator::Mul)
        } else if bit == 8 {
            Some(Operator::Div)
        } else {
            None
        }
    }

    /// The sign that the operator is written with.
    pub open spec fn symbol(self) -> char {
        match self {
            Operator::Add => '+',
            Operator::Sub => '-',
            Operator::Mul => '*',
            Operator::Div => '/',
        }
    }

    /// The name of the operator.
    pub open spec fn name(self) -> Seq<char> {
        match self {
            Operator::Add => seq!['A', 'd', 'd'],
            Operator::Sub => seq!['S', 'u', 'b'],
            Operator::Mul => seq!['M', 'u', 'l'],
            Operator::Div => seq!['D', 'i', 'v'],
        }
    }

    /// The sign that the operator is written with.
    pub fn to_string(&self) -> (text: &'static str)
        ensures
            text@ == seq![self.symbol()],
    {
        proof {
            reveal_strlit("+");
            reveal_strlit("-");
            reveal_strlit("*");
            reveal_strlit("/");
        }
        let text = match self {
            Operator::Add => "+",
            Operator::Sub => "-",
            Operator::Mul => "*",
            Operator::Div => "/",
        };
        assert(text@ =~= seq![self.symbol()]);
        text
    }

    /// The name of the operator.
    pub fn describe(&self) -> (text: &'static str)
        ensures
            text@ == self.name(),
    {
        proof {
            reveal_strlit("Add");
            reveal_strlit("Sub");
            reveal_strlit("Mul");
            reveal_strlit("Div");
        }
        let text = match self {
            Operator::Add => "Add",
            Operator::Sub => "Sub",
            Operator::Mul => "Mul",
            Operator::Div => "Div",
        };
        assert(text@ =~= self.name());
        text
    }

    /// What the operator yields on two integers in the given number system.
    pub open spec fn apply_spec<T: NumberType, E: NumberSystem<T>>(
        self,
        system: E,
        one: int,
        other: int,
    ) -> Option<int> {
        match self {
            Operator::Add => system.add_spec(one, other),
            Operator::Sub => system.sub_spec(one, other),
            Operator::Mul => system.mul_spec(one, other),
            Operator::Div => system.div_spec(one, other),
        }
    }

    /// Apply the operator to the operands using the given number system.
    pub fn apply<T: NumberType, E: NumberSystem<T>>(&self, system: &E, one: T, other: T) -> (r:
        Option<T>)
        requires
            system.valid(),
            system.accepts(one.value()),
            system.accepts(other.value()),
        ensures
            same_result(r, self.apply_spec(*system, one.value(), other.value())),
    {
        match self {
            Operator::Add => system.add(one, other),
            Operator::Sub => system.sub(one, other),
            Operator::Mul => system.mul(one, other),
            Operator::Div => system.div(one, other),
        }
    }
}

/// The operator, if the set `value` holds its bit, and nothing otherwise.
pub open spec fn listed(value: u8, operator: Operator) -> Seq<Operator> {
    if value & operator.bit_spec() != 0 {
        seq![operator]
    } else {
        Seq::empty()
    }
}

/// The operators whose bits the set `value` holds, from the bit `from` up, in
/// ascending order of their bits.
pub open spec fn listed_from(value: u8, from: u8) -> Seq<Operator> {
    if from == 1 {
        listed(value, Operator::Add) + listed(value, Operator::Sub) + listed(
            value,
            Operator::Mul,
        ) + listed(value, Operator::Div)
    } else if from == 2 {
        listed(value, Operator::Sub) + listed(value, Operator::Mul) + listed(
            value,
            Operator::Div,
        )
    } else if from == 4 {
        listed(value, Operator::Mul) + listed(value, Operator::Div)
    } else if from == 8 {
        listed(value, Operator::Div)
    } else {
        Seq::empty()
    }
}

/// Represents a collection of operators.
#[derive(Debug, Clone, Copy)]
pub struct Operators(u8);

/// An iterator through different operators.
pub struct OperatorIterator {
    current_bit: u8,
    value: u8,
}

impl Operators {
    /// The bits of the operators in the collection.
    pub closed spec fn bits(self) -> u8 {
        self.0
    }

    /// Whether the collection holds the operator.
    pub open spec fn contains(self, operator: Operator) -> bool {
        self.bits() & operator.bit_spec() != 0
    }

    /// The operators of the collection in the order in which they are
    /// iterated: ascending by their bits.
    pub open spec fn view(self) -> Seq<Operator> {
        listed_from(self.bits(), 1)
    }

    /// A value representing all the operators.
    pub fn all() -> (r: Operators)
        ensures
            r.bits() == 0xF,
            r@ == seq![Operator::Add, Operator::Sub, Operator::Mul, Operator::Div],
    {
        proof {
            assert(0xFu8 & 1 != 0 && 0xFu8 & 2 != 0 && 0xFu8 & 4 != 0 && 0xFu8 & 8 != 0)
                by (bit_vector);
        }
        Operators(0xF)
    }

    /// The collection of the given operators.
    pub fn from_iter(operators: Vec<Operator>) -> (r: Operators)
        ensures
            forall|operator: Operator| r.contains(operator) <==> operators@.contains(operator),
    {
        let mut bits: u8 = 0;
        let mut i: usize = 0;
        proof {
            lemma_bits_of_none();
        }
        while i < operators.len()
            invariant
                i <= operators.len(),
                forall|operator: Operator|
                    (bits & #[trigger] operator.bit_spec() != 0) <==> operators@.subrange(
                        0,
                        i as int,
                    ).contains(operator),
            decreases operators.len() - i,
        {
            let added = operators[i];
            proof {
                let before = operators@.subrange(0, i as int);
                let after = operators@.subrange(0, i + 1);
                assert(after =~= before.push(added));
                assert forall|operator: Operator|
                    ((bits | added.bit_spec()) & #[trigger] operator.bit_spec() != 0)
                        <==> after.contains(operator) by {
                    lemma_bits_with(bits, added, operator);
                    if before.contains(operator) {
                        let k = choose|k: int| 0 <= k < before.len() && before[k] == operator;
                        assert(after[k] == operator);
                    }
                    if operator == added {
                        assert(after[i as int] == operator);
                    }
                }
            }
            bits = bits | added.bit();
            i = i + 1;
        }
        assert(operators@.subrange(0, i as int) =~= operators@);
        Operators(bits)
    }

    /// An iterator through the operators of the collection, ascending by
    /// their bits.
    pub fn into_iter(self) -> (r: OperatorIterator)
        ensures
            r.wf(),
            r.remaining() == self@,
    {
        OperatorIterator { value: self.0, current_bit: 1 }
    }
}

/// No operator is in the empty set of bits.
pub proof fn lemma_bits_of_none()
    ensures
        forall|operator: Operator| 0u8 & #[trigger] operator.bit_spec() == 0,
{
    assert(0u8 & 1 == 0 && 0u8 & 2 == 0 && 0u8 & 4 == 0 && 0u8 & 8 == 0) by (bit_vector);
}

/// After the bit of `added` is set, a set of bits holds `operator` exactly
/// when it held it before or `operator` is `added`.
pub proof fn lemma_bits_with(bits: u8, added: Operator, operator: Operator)
    ensures
        ((bits | added.bit_spec()) & operator.bit_spec() != 0) <==> (bits & operator.bit_spec()
            != 0 || operator == added),
{
    let a = added.bit_spec();
    let b = operator.bit_spec();
    assert((a == 1 || a == 2 || a == 4 || a == 8) && (b == 1 || b == 2 || b == 4 || b == 8) ==> (((
    bits | a) & b != 0) <==> (bits & b != 0 || a == b))) by (bit_vector);
}

impl OperatorIterator {
    /// The iterator stands at one of the four bits or behind them.
    pub closed spec fn wf(&self) -> bool {
        self.current_bit == 0 || self.current_bit == 1 || self.current_bit == 2
            || self.current_bit == 4 || self.current_bit == 8 || self.current_bit == 16
    }

    /// The operators that the iterator has yet to yield.
    pub closed spec fn remaining(&self) -> Seq<Operator> {
        listed_from(self.value, self.current_bit)
    }

    /// Yields the next operator of the collection.
    pub fn next(&mut self) -> (r: Option<Operator>)
        requires
            old(self).wf(),
        ensures
            final(self).wf(),
            old(self).remaining().len() == 0 ==> r is None && final(self).remaining() == old(self).remaining(),
            old(self).remaining().len() > 0 ==> r == Some(old(self).remaining()[0]) && final(self).remaining() == old(self).remaining().drop_first(),
    {
        if self.current_bit == 0 {
            return None;
        }
        loop
            invariant
                self.wf(),
                self.current_bit != 0,
                self.value == old(self).value,
                self.remaining() == old(self).remaining(),
            decreases 16 - self.current_bit,
        {
            let mask = self.current_bit;
            proof {
                assert(16u8 & 0xF == 0) by (bit_vector);
                assert((mask == 1 || mask == 2 || mask == 4 || mask == 8) ==> mask & 0xF != 0
                    && mask << 1 == 2 * mask) by (bit_vector);
            }
            if mask & 0xF == 0 {
                return None;
            }
            self.current_bit = self.current_bit << 1;
            if (self.value & mask) != 0 {
                let ghost rest = self.remaining();
                let operator = Operator::from_bit(mask);
                proof {
                    let found = operator.unwrap();
                    assert(old(self).remaining() =~= seq![found] + rest);
                    assert(rest =~= old(self).remaining().drop_first());
                }
                return operator;
            }
            proof {
                assert(self.remaining() =~= old(self).remaining());
            }
        }
    }
}

/// A type representing an expression which can either be a value or an
/// application of an operator over two expressions.
pub enum Expression<T: NumberType> {
    /// Stores a value
    Value(T),
    /// Stores the application of an operator over two expressions and the
    /// result there-of
    Application(T, Operator, Box<Expression<T>>, Box<Expression<T>>),
}

impl<T: NumberType> Clone for Expression<T> {
    fn clone(&self) -> (r: Self)
        ensures
            r == *self,
        decreases *self,
    {
        match self {
            Expression::Value(t) => Expression::Value(*t),
            Expression::Application(t, operator, left, right) => Expression::Application(
                *t,
                *operator,
                Box::new((**left).clone()),
                Box::new((**right).clone()),
            ),
        }
    }
}

impl<T: NumberType> Expression<T> {
    /// The number that the expression holds as its value.
    pub open spec fn stored(self) -> T {
        match self {
            Expression::Value(t) => t,
            Expression::Application(t, _, _, _) => t,
        }
    }

    /// The integer that the expression holds as its value.
    pub open spec fn result(self) -> int {
        self.stored().value()
    }

    /// The numbers at the leaves of the expression, from left to right.
    pub open spec fn leaves(self) -> Seq<T>
        decreases self,
    {
        match self {
            Expression::Value(t) => seq![t],
            Expression::Application(_, _, left, right) => left.leaves() + right.leaves(),
        }
    }

    /// Whether the expression is an application of the given operator.
    pub open spec fn applies(self, operator: Operator) -> bool {
        match self {
            Expression::Value(_) => false,
            Expression::Application(_, top, _, _) => top == operator,
        }
    }

    /// The rule that an application has to meet at its top: its value is not
    /// zero, and under addition or multiplication its right operand is no
    /// application of the same operator.
    pub open spec fn is_valid_spec(self) -> bool {
        match self {
            Expression::Value(_) => true,
            Expression::Application(value, operator, _, right) => value.value() != 0 && !((operator
                == Operator::Add || operator == Operator::Mul) && right.applies(operator)),
        }
    }

    /// Whether every application in the expression meets the rule for
    /// applications.
    pub open spec fn canonical(self) -> bool
        decreases self,
    {
        match self {
            Expression::Value(_) => true,
            Expression::Application(_, _, left, right) => self.is_valid_spec()
                && left.canonical() && right.canonical(),
        }
    }

    /// Whether every operator applied in the expression is one of the given
    /// operators.
    pub open spec fn uses_only(self, operators: Seq<Operator>) -> bool
        decreases self,
    {
        match self {
            Expression::Value(_) => true,
            Expression::Application(_, operator, left, right) => operators.contains(operator)
                && left.uses_only(operators) && right.uses_only(operators),
        }
    }

    /// What the expression evaluates to from its leaves in the given number
    /// system: nothing when the system does not take a leaf as an operand or
    /// does not allow an application.
    pub open spec fn eval<N: NumberSystem<T>>(self, system: N) -> Option<int>
        decreases self,
    {
        match self {
            Expression::Value(t) => if system.accepts(t.value()) {
                Some(t.value())
            } else {
                None
            },
            Expression::Application(_, operator, left, right) => match (
                left.eval(system),
                right.eval(system),
            ) {
                (Some(one), Some(other)) => operator.apply_spec(system, one, other),
                _ => None,
            },
        }
    }

    /// Whether every value held in the expression is what the number system
    /// yields there: each leaf is an operand of the system, and each
    /// application holds what its operator yields on the values held by its
    /// two operands.
    pub open spec fn sound<N: NumberSystem<T>>(self, system: N) -> bool
        decreases self,
    {
        match self {
            Expression::Value(t) => system.accepts(t.value()),
            Expression::Application(value, operator, left, right) => left.sound(system)
                && right.sound(system) && operator.apply_spec(
                system,
                left.result(),
                right.result(),
            ) == Some(value.value()),
        }
    }

    /// A sound expression evaluates to the value it holds, and the system
    /// takes that value as an operand.
    pub proof fn lemma_sound_evaluates<N: NumberSystem<T>>(self, system: N)
        requires
            system.valid(),
            self.sound(system),
        ensures
            self.eval(system) == Some(self.result()),
            system.accepts(self.result()),
        decreases self,
    {
        match self {
            Expression::Value(t) => {},
            Expression::Application(value, operator, left, right) => {
                left.lemma_sound_evaluates(system);
                right.lemma_sound_evaluates(system);
                system.results_are_operands(left.result(), right.result());
            },
        }
    }

    /// The expression written out: a leaf as its number, an application as
    /// its left operand, the sign of its operator and its right operand with
    /// a space on either side of the sign. Operands that are applications
    /// stand in brackets, and so does the whole where `alternate` asks for
    /// it.
    pub open spec fn text(self, alternate: bool) -> Seq<char>
        decreases self,
    {
        match self {
            Expression::Value(t) => numeral(t.value()),
            Expression::Application(_, operator, left, right) => {
                let inner = left.text(true) + seq![' ', operator.symbol(), ' '] + right.text(true);
                if alternate {
                    seq!['('] + inner + seq![')']
                } else {
                    inner
                }
            },
        }
    }

    /// The structure of the expression written out: `Val` and the number
    /// for a leaf; `App`, the name of the operator and the two operands in
    /// brackets for an application.
    pub open spec fn description(self) -> Seq<char>
        decreases self,
    {
        match self {
            Expression::Value(t) => seq!['V', 'a', 'l', ' '] + numeral(t.value()),
            Expression::Application(_, operator, left, right) => seq!['A', 'p', 'p', ' ']
                + operator.name() + seq![' ', '('] + left.description() + seq![')', ' ', '(']
                + right.description() + seq![')'],
        }
    }

    /// The expression written out, in brackets where `alternate` asks for
    /// it.
    pub fn render(&self, alternate: bool) -> (text: String)
        ensures
            text@ == self.text(alternate),
        decreases *self,
    {
        match self {
            Expression::Value(t) => write_numeral(*t),
            Expression::Application(_, operator, left, right) => {
                proof {
                    reveal_strlit("(");
                    reveal_strlit(" ");
                    reveal_strlit(")");
                }
                let mut text = String::new();
                if alternate {
                    text.append("(");
                }
                text.append(left.render(true).as_str());
                text.append(" ");
                text.append(operator.to_string());
                text.append(" ");
                text.append(right.render(true).as_str());
                if alternate {
                    text.append(")");
                }
                proof {
                    assert(text@ =~= self.text(alternate));
                }
                text
            },
        }
    }

    /// The expression written out without brackets around the whole.
    pub fn to_string(&self) -> (text: String)
        ensures
            text@ == self.text(false),
    {
        self.render(false)
    }

    /// The structure of the expression written out.
    pub fn describe(&self) -> (text: String)
        ensures
            text@ == self.description(),
        decreases *self,
    {
        proof {
            reveal_strlit("Val ");
            reveal_strlit("App ");
            reveal_strlit(" (");
            reveal_strlit(") (");
            reveal_strlit(")");
        }
        match self {
            Expression::Value(t) => {
                let mut text = String::new();
                text.append("Val ");
                text.append(write_numeral(*t).as_str());
                proof {
                    assert(text@ =~= self.description());
                }
                text
            },
            Expression::Application(_, operator, left, right) => {
                let mut text = String::new();
                text.append("App ");
                text.append(operator.describe());
                text.append(" (");
                text.append(left.describe().as_str());
                text.append(") (");
                text.append(right.describe().as_str());
                text.append(")");
                proof {
                    assert(text@ =~= self.description());
                }
                text
            },
        }
    }

    /// Gets the value of the expression
    pub fn get_value(&self) -> (value: &T)
        ensures
            *value == self.stored(),
    {
        match self {
            Expression::Value(t) => t,
            Expression::Application(t, _, _, _) => t,
        }
    }

    /// Whether the expression meets the rule for applications at its top.
    pub fn is_valid(&self) -> (b: bool)
        ensures
            b == self.is_valid_spec(),
    {
        match self {
            Expression::Value(_) => true,
            Expression::Application(value, operator, _, expr_right) => {
                if value.is_equal(T::zero()) {
                    return false;
                }
                match operator {
                    Operator::Add | Operator::Mul => {
                        match &**expr_right {
                            Expression::Value(_) => {},
                            Expression::Application(_, right_oper, _, _) => {
                                if *right_oper == *operator {
                                    return false;
                                }
                            },
                        }
                    },
                    Operator::Sub => {},
                    Operator::Div => {},
                }
                true
            },
        }
    }

    /// Re evaluate the value of the expression
    pub fn re_eval<N: NumberSystem<T>>(&self, system: &N) -> (value: T)
        requires
            system.valid(),
            self.eval(*system) is Some,
        ensures
            Some(value.value()) == self.eval(*system),
            system.accepts(value.value()),
        decreases *self,
    {
        match self {
            Expression::Value(t) => *t,
            Expression::Application(_, operator, left, right) => {
                let left = left.re_eval(system);
                let right = right.re_eval(system);
                proof {
                    system.results_are_operands(left.value(), right.value());
                }
                operator.apply(system, left, right).unwrap()
            },
        }
    }

    /// A test helper to check whether evaluation is correct
    pub fn check<N: NumberSystem<T>>(&self, system: &N) -> (b: bool)
        requires
            system.valid(),
            self.eval(*system) is Some,
        ensures
            b == (self.eval(*system) == Some(self.result())),
    {
        self.re_eval(system).is_equal(*self.get_value())
    }
}

} // verus!
