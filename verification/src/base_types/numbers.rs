//! Number types and number systems.
//!
//! A [`NumberType`] is a machine integer that the search can compute with. A
//! [`NumberSystem`] decides which operations on two such numbers are allowed
//! and what they yield.
use vstd::arithmetic::div_mod::{
    lemma_fundamental_div_mod, lemma_mod_add_multiples_vanish, lemma_mod_bound,
    lemma_add_mod_noop, lemma_fundamental_div_mod_converse_mod, lemma_mod_multiples_basic,
    lemma_mod_sub_multiples_vanish, lemma_mod_twice, lemma_mul_mod_noop_left,
    lemma_mul_mod_noop_right, lemma_small_mod,
};
use vstd::arithmetic::power::{
    lemma_pow0, lemma_pow1, lemma_pow_adds, lemma_pow_mod_noop, lemma_pow_multiplies,
    lemma_square_is_pow2, pow,
};
use vstd::prelude::*;

verus! {

/// The quotient of `x` by `d` rounded toward zero, as machine division gives it.
pub open spec fn truncating_quotient(x: int, d: int) -> int
    recommends
        d != 0,
{
    if x >= 0 && d > 0 {
        x / d
    } else if x < 0 && d < 0 {
        (-x) / (-d)
    } else if x < 0 {
        -((-x) / d)
    } else {
        -(x / (-d))
    }
}

/// The integer that lies `magnitude` below zero, where `negative` says so,
/// or above zero.
pub open spec fn signed_magnitude(negative: bool, magnitude: int) -> int {
    if negative {
        -magnitude
    } else {
        magnitude
    }
}

/// A number is prime when it is at least two and no number strictly between
/// one and itself divides it.
pub open spec fn is_prime_number(n: int) -> bool {
    n >= 2 && forall|d: int| 2 <= d < n ==> #[trigger] (n % d) != 0
}

/// Checked operations to check for overflow.
///
/// A checked operation returns the number that stands for the exact result
/// when the type can hold it, and nothing otherwise.
pub trait CheckedOperations: Sized {
    /// The integer that this number stands for.
    spec fn value(self) -> int;

    /// The smallest integer the type holds.
    spec fn min_value() -> int;

    /// The largest integer the type holds.
    spec fn max_value() -> int;

    /// The number that stands for the integer `v`, where the type holds it.
    spec fn number(v: int) -> Self;

    /// `number` gives the number that stands for an integer the type holds.
    proof fn number_value(v: int)
        requires
            Self::min_value() <= v <= Self::max_value(),
        ensures
            Self::number(v).value() == v,
    ;

    /// Every number lies between the bounds of its type.
    proof fn value_bounds(self)
        ensures
            Self::min_value() <= self.value() <= Self::max_value(),
    ;

    /// Two numbers that stand for the same integer are the same number.
    proof fn value_injective(self, other: Self)
        requires
            self.value() == other.value(),
        ensures
            self == other,
    ;

    /// The sum, if the type holds it.
    fn checked_add(self, rhs: Self) -> (r: Option<Self>)
        ensures
            match r {
                Some(x) => x.value() == self.value() + rhs.value() && Self::min_value() <= x.value()
                    <= Self::max_value(),
                None => !(Self::min_value() <= self.value() + rhs.value() <= Self::max_value()),
            },
    ;

    /// The difference, if the type holds it.
    fn checked_sub(self, rhs: Self) -> (r: Option<Self>)
        ensures
            match r {
                Some(x) => x.value() == self.value() - rhs.value() && Self::min_value() <= x.value()
                    <= Self::max_value(),
                None => !(Self::min_value() <= self.value() - rhs.value() <= Self::max_value()),
            },
    ;

    /// The product, if the type holds it.
    fn checked_mul(self, rhs: Self) -> (r: Option<Self>)
        ensures
            match r {
                Some(x) => x.value() == self.value() * rhs.value() && Self::min_value() <= x.value()
                    <= Self::max_value(),
                None => !(Self::min_value() <= self.value() * rhs.value() <= Self::max_value()),
            },
    ;

    /// The quotient rounded toward zero, if the divisor is not zero and the
    /// type holds the quotient.
    fn checked_div(self, rhs: Self) -> (r: Option<Self>)
        ensures
            rhs.value() == 0 ==> r is None,
            rhs.value() != 0 ==> match r {
                Some(x) => x.value() == truncating_quotient(self.value(), rhs.value())
                    && Self::min_value() <= x.value() <= Self::max_value(),
                None => !(Self::min_value() <= truncating_quotient(self.value(), rhs.value())
                    <= Self::max_value()),
            },
    ;
}

/// Whether the integer `v` can be held by the type `T`.
pub open spec fn fits<T: CheckedOperations>(v: int) -> bool {
    T::min_value() <= v <= T::max_value()
}

/// A helper trait which defines the required methods for a number.
pub trait NumberType: Sized + Copy + CheckedOperations {
    /// The type holds zero and one.
    proof fn holds_zero_and_one()
        ensures
            Self::min_value() <= 0,
            1 <= Self::max_value(),
    ;

    /// The type holds no number further from zero than the widest machine
    /// number.
    proof fn holds_no_wider()
        ensures
            -(u128::MAX as int) <= Self::min_value(),
            Self::max_value() <= u128::MAX as int,
    ;

    /// Number representing one.
    fn one() -> (r: Self)
        ensures
            r.value() == 1,
    ;

    /// Number representing zero, the addition identity.
    fn zero() -> (r: Self)
        ensures
            r.value() == 0,
    ;

    /// Whether this number is strictly below the other.
    fn is_less(self, other: Self) -> (b: bool)
        ensures
            b == (self.value() < other.value()),
    ;

    /// Whether the two numbers are the same.
    fn is_equal(self, other: Self) -> (b: bool)
        ensures
            b == (self.value() == other.value()),
    ;

    /// The remainder of a number that is not negative by a positive one.
    fn remainder(self, rhs: Self) -> (r: Self)
        requires
            self.value() >= 0,
            rhs.value() > 0,
        ensures
            r.value() == self.value() % rhs.value(),
    ;

    /// Whether the number is below zero, and how far it is from zero.
    fn magnitude(self) -> (r: (bool, u128))
        ensures
            r.0 == (self.value() < 0),
            r.1 == if self.value() < 0 {
                -self.value()
            } else {
                self.value()
            },
    ;

    /// The number that lies `magnitude` below zero, where `negative` says
    /// so, or above zero, if the type holds it.
    fn from_magnitude(negative: bool, magnitude: u128) -> (r: Option<Self>)
        ensures
            match r {
                Some(t) => t.value() == signed_magnitude(negative, magnitude as int),
                None => !(Self::min_value() <= signed_magnitude(negative, magnitude as int)
                    <= Self::max_value()),
            },
    ;

    /// Checks whether a number is prime, by trial division up to its square
    /// root.
    fn is_prime(self) -> (b: bool)
        ensures
            b == is_prime_number(self.value()),
    {
        let one = Self::one();
        let zero = Self::zero();
        let two = match one.checked_add(one) {
            Some(t) => t,
            None => {
                proof {
                    self.value_bounds();
                    one.value_bounds();
                }
                return false;
            },
        };
        if self.is_less(two) {
            return false;
        }
        let mut a = two;
        let mut searching = true;
        while searching
            invariant
                one.value() == 1,
                zero.value() == 0,
                2 <= a.value() <= self.value(),
                forall|d: int| 2 <= d < a.value() ==> #[trigger] (self.value() % d) != 0,
                !searching ==> a.value() * a.value() > self.value(),
            decreases self.value() - a.value() + if searching { 1int } else { 0int },
        {
            let square_fits = match a.checked_mul(a) {
                Some(square) => !self.is_less(square),
                None => {
                    proof {
                        self.value_bounds();
                        zero.value_bounds();
                        assert(a.value() * a.value() >= 0) by (nonlinear_arith);
                    }
                    false
                },
            };
            if !square_fits {
                searching = false;
            } else {
                if self.remainder(a).is_equal(zero) {
                    proof {
                        lemma_square_root_below(a.value(), self.value());
                    }
                    return false;
                }
                proof {
                    lemma_square_root_below(a.value(), self.value());
                    self.value_bounds();
                    zero.value_bounds();
                }
                a = match a.checked_add(one) {
                    Some(next) => next,
                    None => a,
                };
            }
        }
        proof {
            lemma_no_divisor_below_root(a.value(), self.value());
        }
        true
    }
}

/// A number from two on whose square does not exceed `n` is strictly below `n`.
pub proof fn lemma_square_root_below(a: int, n: int)
    requires
        2 <= a,
        a * a <= n,
    ensures
        a < n,
{
    assert(a * a >= 2 * a) by (nonlinear_arith)
        requires
            a >= 2,
    ;
}

/// When no number in `[2, a)` divides `n` and `a * a` exceeds `n`, then no
/// number in `[2, n)` divides `n`.
pub proof fn lemma_no_divisor_below_root(a: int, n: int)
    requires
        2 <= a <= n,
        a * a > n,
        forall|d: int| 2 <= d < a ==> #[trigger] (n % d) != 0,
    ensures
        is_prime_number(n),
{
    assert forall|d: int| 2 <= d < n implies #[trigger] (n % d) != 0 by {
        if d >= a && n % d == 0 {
            let q = n / d;
            lemma_fundamental_div_mod(n, d);
            assert(n == d * q);
            assert(q >= 2) by (nonlinear_arith)
                requires
                    n == d * q,
                    2 <= d < n,
            ;
            assert(q < a) by (nonlinear_arith)
                requires
                    n == d * q,
                    d >= a,
                    a * a > n,
                    a >= 2,
            ;
            assert(n % q == 0) by {
                lemma_mod_multiples_basic(d, q);
                assert(d * q == n);
            }
        }
    }
}

/// Whether an operation handed back what its specification names: the number
/// that stands for the specified integer, or nothing where nothing is
/// specified.
pub open spec fn same_result<T: CheckedOperations>(r: Option<T>, expected: Option<int>) -> bool {
    match (r, expected) {
        (Some(x), Some(v)) => x.value() == v,
        (None, None) => true,
        _ => false,
    }
}

/// A trait which represents a number system. The four basic operations are
/// defined; each yields no result where the system does not allow the
/// combination of operands.
pub trait NumberSystem<T: NumberType>: Copy {
    /// Whether the system is fit to compute with.
    spec fn valid(&self) -> bool;

    /// Whether the system takes the integer as an operand.
    spec fn accepts(&self, x: int) -> bool;

    /// What the system yields for `one` plus `other`, if it allows the two.
    spec fn add_spec(&self, one: int, other: int) -> Option<int>;

    /// What the system yields for `one` less `other`, if it allows the two.
    spec fn sub_spec(&self, one: int, other: int) -> Option<int>;

    /// What the system yields for `one` times `other`, if it allows the two.
    spec fn mul_spec(&self, one: int, other: int) -> Option<int>;

    /// What the system yields for `one` by `other`, if it allows the two.
    spec fn div_spec(&self, one: int, other: int) -> Option<int>;

    /// What the system yields from operands it takes, it takes as an operand
    /// again, and the number type can hold it.
    proof fn results_are_operands(&self, one: int, other: int)
        requires
            self.valid(),
            self.accepts(one),
            self.accepts(other),
        ensures
            self.add_spec(one, other) matches Some(v) ==> self.accepts(v) && fits::<T>(v),
            self.sub_spec(one, other) matches Some(v) ==> self.accepts(v) && fits::<T>(v),
            self.mul_spec(one, other) matches Some(v) ==> self.accepts(v) && fits::<T>(v),
            self.div_spec(one, other) matches Some(v) ==> self.accepts(v) && fits::<T>(v),
    ;

    /// Adds `other` to `one`.
    fn add(&self, one: T, other: T) -> (r: Option<T>)
        requires
            self.valid(),
            self.accepts(one.value()),
            self.accepts(other.value()),
        ensures
            same_result(r, self.add_spec(one.value(), other.value())),
    ;

    /// Takes `other` from `one`.
    fn sub(&self, one: T, other: T) -> (r: Option<T>)
        requires
            self.valid(),
            self.accepts(one.value()),
            self.accepts(other.value()),
        ensures
            same_result(r, self.sub_spec(one.value(), other.value())),
    ;

    /// Multiplies `one` by `other`.
    fn mul(&self, one: T, other: T) -> (r: Option<T>)
        requires
            self.valid(),
            self.accepts(one.value()),
            self.accepts(other.value()),
        ensures
            same_result(r, self.mul_spec(one.value(), other.value())),
    ;

    /// Divides `one` by `other`.
    fn div(&self, one: T, other: T) -> (r: Option<T>)
        requires
            self.valid(),
            self.accepts(one.value()),
            self.accepts(other.value()),
        ensures
            same_result(r, self.div_spec(one.value(), other.value())),
    ;
}

/// A number system which represents normal arithmetic.
///
/// Every operation wants its first operand strictly above the second and
/// neither of them zero; multiplication and division want neither of them
/// one as well. A result that the number type cannot hold is no result.
#[derive(Clone, Copy, Debug)]
pub struct NormalNumberSystem;

/// The guard on the operands of addition and subtraction.
pub open spec fn normal_additive_guard(one: int, other: int) -> bool {
    one > other && one != 0 && other != 0
}

/// The guard on the operands of multiplication and division.
pub open spec fn normal_multiplicative_guard(one: int, other: int) -> bool {
    normal_additive_guard(one, other) && one != 1 && other != 1
}

impl<T: NumberType> NumberSystem<T> for NormalNumberSystem {
    open spec fn valid(&self) -> bool {
        true
    }

    open spec fn accepts(&self, x: int) -> bool {
        true
    }

    open spec fn add_spec(&self, one: int, other: int) -> Option<int> {
        if normal_additive_guard(one, other) && fits::<T>(one + other) {
            Some(one + other)
        } else {
            None
        }
    }

    open spec fn sub_spec(&self, one: int, other: int) -> Option<int> {
        if normal_additive_guard(one, other) && fits::<T>(one - other) {
            Some(one - other)
        } else {
            None
        }
    }

    open spec fn mul_spec(&self, one: int, other: int) -> Option<int> {
        if normal_multiplicative_guard(one, other) && fits::<T>(one * other) {
            Some(one * other)
        } else {
            None
        }
    }

    open spec fn div_spec(&self, one: int, other: int) -> Option<int> {
        if normal_multiplicative_guard(one, other) && fits::<T>(
            truncating_quotient(one, other),
        ) {
            Some(truncating_quotient(one, other))
        } else {
            None
        }
    }

    proof fn results_are_operands(&self, one: int, other: int) {
    }

    fn add(&self, one: T, other: T) -> (r: Option<T>) {
        let zero = T::zero();
        if other.is_less(one) && !one.is_equal(zero) && !other.is_equal(zero) {
            one.checked_add(other)
        } else {
            None
        }
    }

    fn sub(&self, one: T, other: T) -> (r: Option<T>) {
        let zero = T::zero();
        if other.is_less(one) && !one.is_equal(zero) && !other.is_equal(zero) {
            one.checked_sub(other)
        } else {
            None
        }
    }

    fn mul(&self, one: T, other: T) -> (r: Option<T>) {
        let zero = T::zero();
        let unit = T::one();
        if other.is_less(one) && !one.is_equal(zero) && !other.is_equal(zero) && !one.is_equal(
            unit,
        ) && !other.is_equal(unit) {
            one.checked_mul(other)
        } else {
            None
        }
    }

    fn div(&self, one: T, other: T) -> (r: Option<T>) {
        let zero = T::zero();
        let unit = T::one();
        if other.is_less(one) && !one.is_equal(zero) && !other.is_equal(zero) && !one.is_equal(
            unit,
        ) && !other.is_equal(unit) {
            one.checked_div(other)
        } else {
            None
        }
    }
}

/// The numbers from `start` up to `end` in steps of one, `end` itself
/// included or not.
pub struct CountdownRange<T: NumberType> {
    pub start: T,
    pub end: T,
    pub inclusive: bool,
}

impl<T: NumberType> CountdownRange<T> {
    /// How many numbers the range has yet to yield.
    pub open spec fn remaining(&self) -> int {
        if self.start.value() < self.end.value() {
            self.end.value() - self.start.value() + if self.inclusive {
                1int
            } else {
                0int
            }
        } else if self.start.value() == self.end.value() && self.inclusive {
            1
        } else {
            0
        }
    }

    /// Yields the lowest number left in the range, if there is one.
    pub fn next(&mut self) -> (r: Option<T>)
        ensures
            old(self).remaining() > 0 ==> r == Some(old(self).start) && final(self).remaining()
                == old(self).remaining() - 1,
            old(self).remaining() <= 0 ==> r is None && *final(self) == *old(self),
            final(self).end == old(self).end,
            final(self).inclusive ==> old(self).inclusive,
            r is Some && old(self).start.value() < old(self).end.value()
                ==> final(self).start.value() == old(self).start.value() + 1,
    {
        if self.start.is_less(self.end) || (self.inclusive && self.start.is_equal(self.end)) {
            let result = Some(self.start);
            match self.start.checked_add(T::one()) {
                Some(next) => {
                    self.start = next;
                },
                None => {
                    // The range ends at the largest number of the type.
                    proof {
                        self.start.value_bounds();
                        self.end.value_bounds();
                    }
                    self.inclusive = false;
                },
            }
            result
        } else {
            None
        }
    }
}

/// `t` multiplied `n` times into one, each product reduced by the modulus
/// `m`.
pub open spec fn modular_power(t: int, n: int, m: int) -> int
    decreases n,
{
    if n <= 0 {
        1
    } else {
        (modular_power(t, n - 1, m) * t) % m
    }
}

/// The sum of two numbers below the modulus, reduced by the modulus. No
/// step leaves the widest machine number.
pub fn sum_below(a: u128, b: u128, m: u128) -> (r: u128)
    requires
        a < m,
        b < m,
    ensures
        r == (a + b) % (m as int),
{
    if a >= m - b {
        proof {
            lemma_fundamental_div_mod_converse_mod(a + b, m as int, 1, a + b - m);
        }
        a - (m - b)
    } else {
        proof {
            lemma_small_mod((a + b) as nat, m as nat);
        }
        a + b
    }
}

/// The product of two numbers below the modulus, reduced by the modulus:
/// the sum of the doublings of the one that the binary digits of the other
/// pick. No step leaves the widest machine number.
pub fn product_below(a: u128, b: u128, m: u128) -> (r: u128)
    requires
        a < m,
        b < m,
    ensures
        r == (a * b) % (m as int),
{
    let mut sum: u128 = 0;
    let mut term: u128 = a;
    let mut left: u128 = b;
    proof {
        assert(0 + a * b == a * b);
    }
    while left > 0
        invariant
            sum < m,
            term < m,
            (sum + term * left) % (m as int) == (a * b) % (m as int),
        decreases left,
    {
        proof {
            lemma_product_doubles(sum as int, term as int, left as int, m as int);
        }
        if left % 2 == 1 {
            sum = sum_below(sum, term, m);
        }
        term = sum_below(term, term, m);
        left = left / 2;
    }
    proof {
        assert(term * 0 == 0);
        lemma_small_mod(sum as nat, m as nat);
    }
    sum
}

/// A number system which implements modular arithmetic.
///
/// It holds the modulus and whether the modulus is prime. Operands are
/// numbers from zero up to, and not including, the modulus; so are results.
/// A sum or product that the number type cannot hold before it is reduced
/// is no result. Division multiplies by a power of the divisor; the power
/// is computed in the widest machine number, whatever the number type.
#[derive(Clone, Copy, Debug)]
pub struct ModularNumberSystem<T: NumberType>(T, bool);

impl<T: NumberType> ModularNumberSystem<T> {
    /// The modulus.
    pub closed spec fn modulus(&self) -> int {
        self.0.value()
    }

    /// Whether the system takes its modulus for a prime.
    pub closed spec fn prime(&self) -> bool {
        self.1
    }

    /// The modulus is a number of the type.
    pub proof fn modulus_fits(&self)
        ensures
            fits::<T>(self.modulus()),
    {
        self.0.value_bounds();
    }

    /// Creating a modular number system from a value.
    pub fn new(base: T) -> (system: Self)
        ensures
            system.modulus() == base.value(),
            system.prime() == is_prime_number(base.value()),
    {
        Self(base, base.is_prime())
    }

    /// Brings `t` into the range from zero up to the modulus by taking the
    /// modulus off or adding it on.
    pub fn in_range(&self, t: &mut T)
        requires
            self.modulus() > 0,
        ensures
            final(t).value() == old(t).value() % self.modulus(),
    {
        let zero = T::zero();
        let ghost start = t.value();
        proof {
            zero.value_bounds();
        }
        while !t.is_less(self.0)
            invariant
                self.modulus() > 0,
                self.modulus() == self.0.value(),
                zero.value() == 0,
                T::min_value() <= 0,
                t.value() % self.modulus() == start % self.modulus(),
            decreases t.value(),
        {
            proof {
                t.value_bounds();
                lemma_mod_sub_multiples_vanish(t.value(), self.modulus());
            }
            *t = t.checked_sub(self.0).unwrap();
        }
        while t.is_less(zero)
            invariant
                self.modulus() > 0,
                self.modulus() == self.0.value(),
                zero.value() == 0,
                t.value() < self.modulus(),
                t.value() % self.modulus() == start % self.modulus(),
            decreases
                    if t.value() < 0 {
                        -t.value()
                    } else {
                        0
                    },
        {
            proof {
                t.value_bounds();
                self.0.value_bounds();
                lemma_mod_add_multiples_vanish(t.value(), self.modulus());
            }
            *t = t.checked_add(self.0).unwrap();
        }
        proof {
            lemma_small_mod(t.value() as nat, self.modulus() as nat);
        }
    }

    /// `t` brought into the range from zero up to the modulus.
    pub fn t_into_range(&self, t: T) -> (r: T)
        requires
            self.modulus() > 0,
        ensures
            r.value() == t.value() % self.modulus(),
    {
        let mut t = t;
        self.in_range(&mut t);
        t
    }

    /// `t` to the power `n` under the modulus, by squaring: the number of
    /// multiplications grows with the number of binary digits of `n`. The
    /// power is computed in the widest machine number, and no product
    /// leaves it.
    pub fn pow(&self, t: T, n: T) -> (r: T)
        requires
            self.modulus() > 0,
            0 <= t.value(),
        ensures
            r.value() == modular_power(t.value(), n.value(), self.modulus()),
    {
        let (_, modulus) = self.0.magnitude();
        let (_, start) = t.magnitude();
        let (negative, exponent) = n.magnitude();
        if negative || exponent == 0 {
            return T::one();
        }
        let mut power: u128 = 1 % modulus;
        let mut base: u128 = start % modulus;
        let mut left: u128 = exponent;
        proof {
            lemma_power_begins(t.value(), n.value(), self.modulus());
        }
        while left > 0
            invariant
                modulus == self.modulus(),
                modulus > 0,
                power < modulus,
                base < modulus,
                n.value() >= 1,
                (power * pow(base as int, left as nat)) % (modulus as int) == pow(
                    t.value(),
                    n.value() as nat,
                ) % (modulus as int),
            decreases left,
        {
            proof {
                lemma_power_squares(power as int, base as int, left as int, modulus as int);
            }
            if left % 2 == 1 {
                power = product_below(power, base, modulus);
            }
            base = product_below(base, base, modulus);
            left = left / 2;
        }
        proof {
            lemma_pow0(base as int);
            lemma_small_mod(power as nat, modulus as nat);
            lemma_power_is_the_power_reduced(t.value(), n.value(), self.modulus());
            self.modulus_fits();
            T::holds_zero_and_one();
        }
        T::from_magnitude(false, power).unwrap()
    }

    /// What division multiplies by in place of dividing by `t`: `t` to the
    /// power of the modulus less one.
    pub fn multiplicative_inverse(&self, t: T) -> (r: T)
        requires
            self.modulus() > 0,
            0 <= t.value(),
        ensures
            r.value() == modular_power(t.value(), self.modulus() - 1, self.modulus()),
    {
        let zero = T::zero();
        proof {
            self.0.value_bounds();
            zero.value_bounds();
        }
        self.pow(t, self.0.checked_sub(T::one()).unwrap())
    }
}

impl<T: NumberType> NumberSystem<T> for ModularNumberSystem<T> {
    open spec fn valid(&self) -> bool {
        self.modulus() > 0 && self.prime() == is_prime_number(self.modulus())
    }

    open spec fn accepts(&self, x: int) -> bool {
        0 <= x < self.modulus()
    }

    open spec fn add_spec(&self, one: int, other: int) -> Option<int> {
        if fits::<T>(one + other) {
            Some((one + other) % self.modulus())
        } else {
            None
        }
    }

    open spec fn sub_spec(&self, one: int, other: int) -> Option<int> {
        if one != other && fits::<T>(one + (self.modulus() - other)) {
            Some((one + (self.modulus() - other)) % self.modulus())
        } else {
            None
        }
    }

    open spec fn mul_spec(&self, one: int, other: int) -> Option<int> {
        if fits::<T>(one * other) {
            Some((one * other) % self.modulus())
        } else {
            None
        }
    }

    open spec fn div_spec(&self, one: int, other: int) -> Option<int> {
        if self.prime() {
            self.mul_spec(one, modular_power(other, self.modulus() - 1, self.modulus()))
        } else {
            None
        }
    }

    proof fn results_are_operands(&self, one: int, other: int) {
        let m = self.modulus();
        self.modulus_fits();
        self.0.value_bounds();
        lemma_mod_bound(one + other, m);
        lemma_mod_bound(one + (m - other), m);
        lemma_mod_bound(one * other, m);
        if self.prime() {
            lemma_mod_bound(one * modular_power(other, m - 1, m), m);
        }
        T::holds_zero_and_one();
    }

    fn add(&self, one: T, other: T) -> (r: Option<T>) {
        match one.checked_add(other) {
            Some(sum) => Some(self.t_into_range(sum)),
            None => None,
        }
    }

    fn sub(&self, one: T, other: T) -> (r: Option<T>) {
        if !one.is_equal(other) {
            let zero = T::zero();
            proof {
                self.0.value_bounds();
                zero.value_bounds();
            }
            let complement = self.0.checked_sub(other).unwrap();
            match one.checked_add(complement) {
                Some(sum) => Some(self.t_into_range(sum)),
                None => None,
            }
        } else {
            None
        }
    }

    fn mul(&self, one: T, other: T) -> (r: Option<T>) {
        match one.checked_mul(other) {
            Some(product) => Some(self.t_into_range(product)),
            None => None,
        }
    }

    fn div(&self, one: T, other: T) -> (r: Option<T>) {
        if !self.1 {
            return None;
        }
        let inverse = self.multiplicative_inverse(other);
        proof {
            lemma_power_in_range(other.value(), self.modulus() - 1, self.modulus());
        }
        self.mul(one, inverse)
    }
}

/// Which number system to use.
pub enum NumberSystems<T: NumberType> {
    /// Normal arithmetic.
    Normal(NormalNumberSystem),
    /// Arithmetic under a modulus.
    Modular(ModularNumberSystem<T>),
}

/// Gets the number system for a given number: zero asks for normal
/// arithmetic, any other number is the modulus of modular arithmetic.
pub fn get_number_system<T: NumberType>(modulus: T) -> (r: NumberSystems<T>)
    ensures
        match r {
            NumberSystems::Normal(_) => modulus.value() == 0,
            NumberSystems::Modular(system) => modulus.value() != 0 && system.modulus()
                == modulus.value() && system.prime() == is_prime_number(modulus.value()),
        },
{
    if modulus.is_equal(T::zero()) {
        NumberSystems::Normal(NormalNumberSystem)
    } else {
        NumberSystems::Modular(ModularNumberSystem::new(modulus))
    }
}

/// A power with a positive exponent lies from zero up to the modulus.
pub proof fn lemma_power_in_range(t: int, n: int, m: int)
    requires
        n >= 1,
        m > 0,
    ensures
        0 <= modular_power(t, n, m) < m,
{
    lemma_mod_bound(modular_power(t, n - 1, m) * t, m);
}

/// A power with a positive exponent under a modulus is the remainder that
/// the power of the integers leaves on division by the modulus.
pub proof fn lemma_power_is_the_power_reduced(t: int, n: int, m: int)
    requires
        n >= 1,
        m > 0,
    ensures
        modular_power(t, n, m) == pow(t, n as nat) % m,
    decreases n,
{
    lemma_pow1(t);
    if n == 1 {
        assert(modular_power(t, 0, m) == 1);
        assert(1 * t == t);
    } else {
        lemma_power_is_the_power_reduced(t, n - 1, m);
        let lower = pow(t, (n - 1) as nat);
        lemma_mul_mod_noop_left(lower, t, m);
        lemma_pow_adds(t, (n - 1) as nat, 1);
        assert(((n - 1) as nat) + 1 == n as nat);
    }
}

/// Doubling the term halves what is left of the other number: an odd rest
/// first hands the term to the sum gathered so far.
proof fn lemma_product_doubles(sum: int, term: int, left: int, m: int)
    requires
        left > 0,
        m > 0,
    ensures
        left % 2 == 1 ==> (((sum + term) % m) + ((term + term) % m) * (left / 2)) % m == (sum
            + term * left) % m,
        left % 2 == 0 ==> (sum + ((term + term) % m) * (left / 2)) % m == (sum + term * left) % m,
{
    let half = left / 2;
    let double = term + term;
    let first = if left % 2 == 1 {
        sum + term
    } else {
        sum
    };
    assert(sum + term * left == first + double * half) by (nonlinear_arith)
        requires
            left == 2 * half + left % 2,
            double == term + term,
            first == if left % 2 == 1 {
                sum + term
            } else {
                sum
            },
            left % 2 == 0 || left % 2 == 1,
    ;
    lemma_add_mod_noop(first, double * half, m);
    lemma_mul_mod_noop_left(double, half, m);
    lemma_add_mod_noop(first % m, (double % m) * half, m);
    lemma_add_mod_noop(first, (double % m) * half, m);
    lemma_mod_twice(first, m);
}

/// One times the power of the reduced number leaves the remainder of the
/// power.
proof fn lemma_power_begins(t: int, n: int, m: int)
    requires
        n >= 0,
        m > 0,
    ensures
        ((1int % m) * pow(t % m, n as nat)) % m == pow(t, n as nat) % m,
{
    let reduced = pow(t % m, n as nat);
    lemma_pow_mod_noop(t, n as nat, m);
    lemma_mul_mod_noop_left(1int, reduced, m);
    assert(1 * reduced == reduced);
}

/// Squaring the base halves the exponent: an odd exponent first hands one
/// factor to the power gathered so far.
proof fn lemma_power_squares(gathered: int, base: int, left: int, m: int)
    requires
        left > 0,
        m > 0,
    ensures
        left % 2 == 1 ==> (((gathered * base) % m) * pow((base * base) % m, (left / 2) as nat)) % m
            == (gathered * pow(base, left as nat)) % m,
        left % 2 == 0 ==> (gathered * pow((base * base) % m, (left / 2) as nat)) % m == (gathered
            * pow(base, left as nat)) % m,
{
    let half = (left / 2) as nat;
    let square = base * base;
    let whole = pow(square, half);
    let reduced = pow(square % m, half);
    lemma_pow_mod_noop(square, half, m);
    lemma_square_is_pow2(base);
    lemma_pow_multiplies(base, 2, half);
    assert(whole == pow(base, 2 * half));
    if left % 2 == 0 {
        assert(2 * half == left as nat);
        lemma_mul_mod_noop_right(gathered, reduced, m);
        lemma_mul_mod_noop_right(gathered, whole, m);
    } else {
        assert(2 * half + 1 == left as nat);
        lemma_pow_adds(base, 2 * half, 1);
        lemma_pow1(base);
        let longer = gathered * base;
        lemma_mul_mod_noop_left(longer, reduced, m);
        lemma_mul_mod_noop_right(longer, reduced, m);
        lemma_mul_mod_noop_right(longer, whole, m);
        assert(longer * whole == gathered * (whole * base)) by (nonlinear_arith)
            requires
                longer == gathered * base,
        ;
    }
}

} // verus!
