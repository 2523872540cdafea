//! The number traits for the primitive integer types.
use super::numbers::{CheckedOperations, NumberType};
use vstd::prelude::*;

verus! {

impl CheckedOperations for u8 {
    open spec fn value(self) -> int {
        self as int
    }

    open spec fn min_value() -> int {
        0
    }

    open spec fn max_value() -> int {
        u8::MAX as int
    }

    open spec fn number(v: int) -> Self {
        v as u8
    }

    proof fn number_value(v: int) {
    }

    proof fn value_bounds(self) {
    }

    proof fn value_injective(self, other: Self) {
    }

    fn checked_add(self, rhs: Self) -> (r: Option<Self>) {
        u8::checked_add(self, rhs)
    }

    fn checked_sub(self, rhs: Self) -> (r: Option<Self>) {
        u8::checked_sub(self, rhs)
    }

    fn checked_mul(self, rhs: Self) -> (r: Option<Self>) {
        u8::checked_mul(self, rhs)
    }

    fn checked_div(self, rhs: Self) -> (r: Option<Self>) {
        u8::checked_div(self, rhs)
    }
}

impl NumberType for u8 {
    proof fn holds_zero_and_one() {
    }

    proof fn holds_no_wider() {
    }

    fn one() -> (r: Self) {
        1
    }

    fn zero() -> (r: Self) {
        0
    }

    fn is_less(self, other: Self) -> (b: bool) {
        self < other
    }

    fn is_equal(self, other: Self) -> (b: bool) {
        self == other
    }

    fn remainder(self, rhs: Self) -> (r: Self) {
        self % rhs
    }

    fn magnitude(self) -> (r: (bool, u128)) {
        (false, self as u128)
    }

    fn from_magnitude(negative: bool, magnitude: u128) -> (r: Option<Self>) {
        if negative {
            if magnitude == 0 {
                Some(0)
            } else {
                None
            }
        } else if magnitude <= u8::MAX as u128 {
            Some(magnitude as u8)
        } else {
            None
        }
    }
}

impl CheckedOperations for u16 {
    open spec fn value(self) -> int {
        self as int
    }

    open spec fn min_value() -> int {
        0
    }

    open spec fn max_value() -> int {
        u16::MAX as int
    }

    open spec fn number(v: int) -> Self {
        v as u16
    }

    proof fn number_value(v: int) {
    }

    proof fn value_bounds(self) {
    }

    proof fn value_injective(self, other: Self) {
    }

    fn checked_add(self, rhs: Self) -> (r: Option<Self>) {
        u16::checked_add(self, rhs)
    }

    fn checked_sub(self, rhs: Self) -> (r: Option<Self>) {
        u16::checked_sub(self, rhs)
    }

    fn checked_mul(self, rhs: Self) -> (r: Option<Self>) {
        u16::checked_mul(self, rhs)
    }

    fn checked_div(self, rhs: Self) -> (r: Option<Self>) {
        u16::checked_div(self, rhs)
    }
}

impl NumberType for u16 {
    proof fn holds_zero_and_one() {
    }

    proof fn holds_no_wider() {
    }

    fn one() -> (r: Self) {
        1
    }

    fn zero() -> (r: Self) {
        0
    }

    fn is_less(self, other: Self) -> (b: bool) {
        self < other
    }

    fn is_equal(self, other: Self) -> (b: bool) {
        self == other
    }

    fn remainder(self, rhs: Self) -> (r: Self) {
        self % rhs
    }

    fn magnitude(self) -> (r: (bool, u128)) {
        (false, self as u128)
    }

    fn from_magnitude(negative: bool, magnitude: u128) -> (r: Option<Self>) {
        if negative {
            if magnitude == 0 {
                Some(0)
            } else {
                None
            }
        } else if magnitude <= u16::MAX as u128 {
            Some(magnitude as u16)
        } else {
            None
        }
    }
}

impl CheckedOperations for u32 {
    open spec fn value(self) -> int {
        self as int
    }

    open spec fn min_value() -> int {
        0
    }

    open spec fn max_value() -> int {
        u32::MAX as int
    }

    open spec fn number(v: int) -> Self {
        v as u32
    }

    proof fn number_value(v: int) {
    }

    proof fn value_bounds(self) {
    }

    proof fn value_injective(self, other: Self) {
    }

    fn checked_add(self, rhs: Self) -> (r: Option<Self>) {
        u32::checked_add(self, rhs)
    }

    fn checked_sub(self, rhs: Self) -> (r: Option<Self>) {
        u32::checked_sub(self, rhs)
    }

    fn checked_mul(self, rhs: Self) -> (r: Option<Self>) {
        u32::checked_mul(self, rhs)
    }

    fn checked_div(self, rhs: Self) -> (r: Option<Self>) {
        u32::checked_div(self, rhs)
    }
}

impl NumberType for u32 {
    proof fn holds_zero_and_one() {
    }

    proof fn holds_no_wider() {
    }

    fn one() -> (r: Self) {
        1
    }

    fn zero() -> (r: Self) {
        0
    }

    fn is_less(self, other: Self) -> (b: bool) {
        self < other
    }

    fn is_equal(self, other: Self) -> (b: bool) {
        self == other
    }

    fn remainder(self, rhs: Self) -> (r: Self) {
        self % rhs
    }

    fn magnitude(self) -> (r: (bool, u128)) {
        (false, self as u128)
    }

    fn from_magnitude(negative: bool, magnitude: u128) -> (r: Option<Self>) {
        if negative {
            if magnitude == 0 {
                Some(0)
            } else {
                None
            }
        } else if magnitude <= u32::MAX as u128 {
            Some(magnitude as u32)
        } else {
            None
        }
    }
}

impl CheckedOperations for u64 {
    open spec fn value(self) -> int {
        self as int
    }

    open spec fn min_value() -> int {
        0
    }

    open spec fn max_value() -> int {
        u64::MAX as int
    }

    open spec fn number(v: int) -> Self {
        v as u64
    }

    proof fn number_value(v: int) {
    }

    proof fn value_bounds(self) {
    }

    proof fn value_injective(self, other: Self) {
    }

    fn checked_add(self, rhs: Self) -> (r: Option<Self>) {
        u64::checked_add(self, rhs)
    }

    fn checked_sub(self, rhs: Self) -> (r: Option<Self>) {
        u64::checked_sub(self, rhs)
    }

    fn checked_mul(self, rhs: Self) -> (r: Option<Self>) {
        u64::checked_mul(self, rhs)
    }

    fn checked_div(self, rhs: Self) -> (r: Option<Self>) {
        u64::checked_div(self, rhs)
    }
}

impl NumberType for u64 {
    proof fn holds_zero_and_one() {
    }

    proof fn holds_no_wider() {
    }

    fn one() -> (r: Self) {
        1
    }

    fn zero() -> (r: Self) {
        0
    }

    fn is_less(self, other: Self) -> (b: bool) {
        self < other
    }

    fn is_equal(self, other: Self) -> (b: bool) {
        self == other
    }

    fn remainder(self, rhs: Self) -> (r: Self) {
        self % rhs
    }

    fn magnitude(self) -> (r: (bool, u128)) {
        (false, self as u128)
    }

    fn from_magnitude(negative: bool, magnitude: u128) -> (r: Option<Self>) {
        if negative {
            if magnitude == 0 {
                Some(0)
            } else {
                None
            }
        } else if magnitude <= u64::MAX as u128 {
            Some(magnitude as u64)
        } else {
            None
        }
    }
}

impl CheckedOperations for u128 {
    open spec fn value(self) -> int {
        self as int
    }

    open spec fn min_value() -> int {
        0
    }

    open spec fn max_value() -> int {
        u128::MAX as int
    }

    open spec fn number(v: int) -> Self {
        v as u128
    }

    proof fn number_value(v: int) {
    }

    proof fn value_bounds(self) {
    }

    proof fn value_injective(self, other: Self) {
    }

    fn checked_add(self, rhs: Self) -> (r: Option<Self>) {
        u128::checked_add(self, rhs)
    }

    fn checked_sub(self, rhs: Self) -> (r: Option<Self>) {
        u128::checked_sub(self, rhs)
    }

    fn checked_mul(self, rhs: Self) -> (r: Option<Self>) {
        u128::checked_mul(self, rhs)
    }

    fn checked_div(self, rhs: Self) -> (r: Option<Self>) {
        u128::checked_div(self, rhs)
    }
}

impl NumberType for u128 {
    proof fn holds_zero_and_one() {
    }

    proof fn holds_no_wider() {
    }

    fn one() -> (r: Self) {
        1
    }

    fn zero() -> (r: Self) {
        0
    }

    fn is_less(self, other: Self) -> (b: bool) {
        self < other
    }

    fn is_equal(self, other: Self) -> (b: bool) {
        self == other
    }

    fn remainder(self, rhs: Self) -> (r: Self) {
        self % rhs
    }

    fn magnitude(self) -> (r: (bool, u128)) {
        (false, self as u128)
    }

    fn from_magnitude(negative: bool, magnitude: u128) -> (r: Option<Self>) {
        if negative {
            if magnitude == 0 {
                Some(0)
            } else {
                None
            }
        } else if magnitude <= u128::MAX as u128 {
            Some(magnitude as u128)
        } else {
            None
        }
    }
}

impl CheckedOperations for usize {
    open spec fn value(self) -> int {
        self as int
    }

    open spec fn min_value() -> int {
        0
    }

    open spec fn max_value() -> int {
        usize::MAX as int
    }

    open spec fn number(v: int) -> Self {
        v as usize
    }

    proof fn number_value(v: int) {
    }

    proof fn value_bounds(self) {
    }

    proof fn value_injective(self, other: Self) {
    }

    fn checked_add(self, rhs: Self) -> (r: Option<Self>) {
        usize::checked_add(self, rhs)
    }

    fn checked_sub(self, rhs: Self) -> (r: Option<Self>) {
        usize::checked_sub(self, rhs)
    }

    fn checked_mul(self, rhs: Self) -> (r: Option<Self>) {
        usize::checked_mul(self, rhs)
    }

    fn checked_div(self, rhs: Self) -> (r: Option<Self>) {
        usize::checked_div(self, rhs)
    }
}

impl NumberType for usize {
    proof fn holds_zero_and_one() {
    }

    proof fn holds_no_wider() {
    }

    fn one() -> (r: Self) {
        1
    }

    fn zero() -> (r: Self) {
        0
    }

    fn is_less(self, other: Self) -> (b: bool) {
        self < other
    }

    fn is_equal(self, other: Self) -> (b: bool) {
        self == other
    }

    fn remainder(self, rhs: Self) -> (r: Self) {
        self % rhs
    }

    fn magnitude(self) -> (r: (bool, u128)) {
        (false, self as u128)
    }

    fn from_magnitude(negative: bool, magnitude: u128) -> (r: Option<Self>) {
        if negative {
            if magnitude == 0 {
                Some(0)
            } else {
                None
            }
        } else if magnitude <= usize::MAX as u128 {
            Some(magnitude as usize)
        } else {
            None
        }
    }
}

impl CheckedOperations for i8 {
    open spec fn value(self) -> int {
        self as int
    }

    open spec fn min_value() -> int {
        i8::MIN as int
    }

    open spec fn max_value() -> int {
        i8::MAX as int
    }

    open spec fn number(v: int) -> Self {
        v as i8
    }

    proof fn number_value(v: int) {
    }

    proof fn value_bounds(self) {
    }

    proof fn value_injective(self, other: Self) {
    }

    fn checked_add(self, rhs: Self) -> (r: Option<Self>) {
        i8::checked_add(self, rhs)
    }

    fn checked_sub(self, rhs: Self) -> (r: Option<Self>) {
        i8::checked_sub(self, rhs)
    }

    fn checked_mul(self, rhs: Self) -> (r: Option<Self>) {
        i8::checked_mul(self, rhs)
    }

    fn checked_div(self, rhs: Self) -> (r: Option<Self>) {
        i8::checked_div(self, rhs)
    }
}

impl NumberType for i8 {
    proof fn holds_zero_and_one() {
    }

    proof fn holds_no_wider() {
    }

    fn one() -> (r: Self) {
        1
    }

    fn zero() -> (r: Self) {
        0
    }

    fn is_less(self, other: Self) -> (b: bool) {
        self < other
    }

    fn is_equal(self, other: Self) -> (b: bool) {
        self == other
    }

    fn remainder(self, rhs: Self) -> (r: Self) {
        self % rhs
    }

    fn magnitude(self) -> (r: (bool, u128)) {
        if self < 0 {
            (true, (-(self as i128)) as u128)
        } else {
            (false, self as u128)
        }
    }

    fn from_magnitude(negative: bool, magnitude: u128) -> (r: Option<Self>) {
        if negative {
            if magnitude <= i8::MAX as u128 {
                Some(-(magnitude as i8))
            } else if magnitude == (i8::MAX as u128) + 1 {
                Some(i8::MIN)
            } else {
                None
            }
        } else if magnitude <= i8::MAX as u128 {
            Some(magnitude as i8)
        } else {
            None
        }
    }
}

impl CheckedOperations for i16 {
    open spec fn value(self) -> int {
        self as int
    }

    open spec fn min_value() -> int {
        i16::MIN as int
    }

    open spec fn max_value() -> int {
        i16::MAX as int
    }

    open spec fn number(v: int) -> Self {
        v as i16
    }

    proof fn number_value(v: int) {
    }

    proof fn value_bounds(self) {
    }

    proof fn value_injective(self, other: Self) {
    }

    fn checked_add(self, rhs: Self) -> (r: Option<Self>) {
        i16::checked_add(self, rhs)
    }

    fn checked_sub(self, rhs: Self) -> (r: Option<Self>) {
        i16::checked_sub(self, rhs)
    }

    fn checked_mul(self, rhs: Self) -> (r: Option<Self>) {
        i16::checked_mul(self, rhs)
    }

    fn checked_div(self, rhs: Self) -> (r: Option<Self>) {
        i16::checked_div(self, rhs)
    }
}

impl NumberType for i16 {
    proof fn holds_zero_and_one() {
    }

    proof fn holds_no_wider() {
    }

    fn one() -> (r: Self) {
        1
    }

    fn zero() -> (r: Self) {
        0
    }

    fn is_less(self, other: Self) -> (b: bool) {
        self < other
    }

    fn is_equal(self, other: Self) -> (b: bool) {
        self == other
    }

    fn remainder(self, rhs: Self) -> (r: Self) {
        self % rhs
    }

    fn magnitude(self) -> (r: (bool, u128)) {
        if self < 0 {
            (true, (-(self as i128)) as u128)
        } else {
            (false, self as u128)
        }
    }

    fn from_magnitude(negative: bool, magnitude: u128) -> (r: Option<Self>) {
        if negative {
            if magnitude <= i16::MAX as u128 {
                Some(-(magnitude as i16))
            } else if magnitude == (i16::MAX as u128) + 1 {
                Some(i16::MIN)
            } else {
                None
            }
        } else if magnitude <= i16::MAX as u128 {
            Some(magnitude as i16)
        } else {
            None
        }
    }
}

impl CheckedOperations for i32 {
    open spec fn value(self) -> int {
        self as int
    }

    open spec fn min_value() -> int {
        i32::MIN as int
    }

    open spec fn max_value() -> int {
        i32::MAX as int
    }

    open spec fn number(v: int) -> Self {
        v as i32
    }

    proof fn number_value(v: int) {
    }

    proof fn value_bounds(self) {
    }

    proof fn value_injective(self, other: Self) {
    }

    fn checked_add(self, rhs: Self) -> (r: Option<Self>) {
        i32::checked_add(self, rhs)
    }

    fn checked_sub(self, rhs: Self) -> (r: Option<Self>) {
        i32::checked_sub(self, rhs)
    }

    fn checked_mul(self, rhs: Self) -> (r: Option<Self>) {
        i32::checked_mul(self, rhs)
    }

    fn checked_div(self, rhs: Self) -> (r: Option<Self>) {
        i32::checked_div(self, rhs)
    }
}

impl NumberType for i32 {
    proof fn holds_zero_and_one() {
    }

    proof fn holds_no_wider() {
    }

    fn one() -> (r: Self) {
        1
    }

    fn zero() -> (r: Self) {
        0
    }

    fn is_less(self, other: Self) -> (b: bool) {
        self < other
    }

    fn is_equal(self, other: Self) -> (b: bool) {
        self == other
    }

    fn remainder(self, rhs: Self) -> (r: Self) {
        self % rhs
    }

    fn magnitude(self) -> (r: (bool, u128)) {
        if self < 0 {
            (true, (-(self as i128)) as u128)
        } else {
            (false, self as u128)
        }
    }

    fn from_magnitude(negative: bool, magnitude: u128) -> (r: Option<Self>) {
        if negative {
            if magnitude <= i32::MAX as u128 {
                Some(-(magnitude as i32))
            } else if magnitude == (i32::MAX as u128) + 1 {
                Some(i32::MIN)
            } else {
                None
            }
        } else if magnitude <= i32::MAX as u128 {
            Some(magnitude as i32)
        } else {
            None
        }
    }
}

impl CheckedOperations for i64 {
    open spec fn value(self) -> int {
        self as int
    }

    open spec fn min_value() -> int {
        i64::MIN as int
    }

    open spec fn max_value() -> int {
        i64::MAX as int
    }

    open spec fn number(v: int) -> Self {
        v as i64
    }

    proof fn number_value(v: int) {
    }

    proof fn value_bounds(self) {
    }

    proof fn value_injective(self, other: Self) {
    }

    fn checked_add(self, rhs: Self) -> (r: Option<Self>) {
        i64::checked_add(self, rhs)
    }

    fn checked_sub(self, rhs: Self) -> (r: Option<Self>) {
        i64::checked_sub(self, rhs)
    }

    fn checked_mul(self, rhs: Self) -> (r: Option<Self>) {
        i64::checked_mul(self, rhs)
    }

    fn checked_div(self, rhs: Self) -> (r: Option<Self>) {
        i64::checked_div(self, rhs)
    }
}

impl NumberType for i64 {
    proof fn holds_zero_and_one() {
    }

    proof fn holds_no_wider() {
    }

    fn one() -> (r: Self) {
        1
    }

    fn zero() -> (r: Self) {
        0
    }

    fn is_less(self, other: Self) -> (b: bool) {
        self < other
    }

    fn is_equal(self, other: Self) -> (b: bool) {
        self == other
    }

    fn remainder(self, rhs: Self) -> (r: Self) {
        self % rhs
    }

    fn magnitude(self) -> (r: (bool, u128)) {
        if self < 0 {
            (true, (-(self as i128)) as u128)
        } else {
            (false, self as u128)
        }
    }

    fn from_magnitude(negative: bool, magnitude: u128) -> (r: Option<Self>) {
        if negative {
            if magnitude <= i64::MAX as u128 {
                Some(-(magnitude as i64))
            } else if magnitude == (i64::MAX as u128) + 1 {
                Some(i64::MIN)
            } else {
                None
            }
        } else if magnitude <= i64::MAX as u128 {
            Some(magnitude as i64)
        } else {
            None
        }
    }
}

impl CheckedOperations for i128 {
    open spec fn value(self) -> int {
        self as int
    }

    open spec fn min_value() -> int {
        i128::MIN as int
    }

    open spec fn max_value() -> int {
        i128::MAX as int
    }

    open spec fn number(v: int) -> Self {
        v as i128
    }

    proof fn number_value(v: int) {
    }

    proof fn value_bounds(self) {
    }

    proof fn value_injective(self, other: Self) {
    }

    fn checked_add(self, rhs: Self) -> (r: Option<Self>) {
        i128::checked_add(self, rhs)
    }

    fn checked_sub(self, rhs: Self) -> (r: Option<Self>) {
        i128::checked_sub(self, rhs)
    }

    fn checked_mul(self, rhs: Self) -> (r: Option<Self>) {
        i128::checked_mul(self, rhs)
    }

    fn checked_div(self, rhs: Self) -> (r: Option<Self>) {
        i128::checked_div(self, rhs)
    }
}

impl NumberType for i128 {
    proof fn holds_zero_and_one() {
    }

    proof fn holds_no_wider() {
    }

    fn one() -> (r: Self) {
        1
    }

    fn zero() -> (r: Self) {
        0
    }

    fn is_less(self, other: Self) -> (b: bool) {
        self < other
    }

    fn is_equal(self, other: Self) -> (b: bool) {
        self == other
    }

    fn remainder(self, rhs: Self) -> (r: Self) {
        self % rhs
    }

    fn magnitude(self) -> (r: (bool, u128)) {
        if self == i128::MIN {
            (true, 0x8000_0000_0000_0000_0000_0000_0000_0000)
        } else if self < 0 {
            (true, (-self) as u128)
        } else {
            (false, self as u128)
        }
    }

    fn from_magnitude(negative: bool, magnitude: u128) -> (r: Option<Self>) {
        if negative {
            if magnitude <= i128::MAX as u128 {
                Some(-(magnitude as i128))
            } else if magnitude == (i128::MAX as u128) + 1 {
                Some(i128::MIN)
            } else {
                None
            }
        } else if magnitude <= i128::MAX as u128 {
            Some(magnitude as i128)
        } else {
            None
        }
    }
}

impl CheckedOperations for isize {
    open spec fn value(self) -> int {
        self as int
    }

    open spec fn min_value() -> int {
        isize::MIN as int
    }

    open spec fn max_value() -> int {
        isize::MAX as int
    }

    open spec fn number(v: int) -> Self {
        v as isize
    }

    proof fn number_value(v: int) {
    }

    proof fn value_bounds(self) {
    }

    proof fn value_injective(self, other: Self) {
    }

    fn checked_add(self, rhs: Self) -> (r: Option<Self>) {
        isize::checked_add(self, rhs)
    }

    fn checked_sub(self, rhs: Self) -> (r: Option<Self>) {
        isize::checked_sub(self, rhs)
    }

    fn checked_mul(self, rhs: Self) -> (r: Option<Self>) {
        isize::checked_mul(self, rhs)
    }

    fn checked_div(self, rhs: Self) -> (r: Option<Self>) {
        isize::checked_div(self, rhs)
    }
}

impl NumberType for isize {
    proof fn holds_zero_and_one() {
    }

    proof fn holds_no_wider() {
    }

    fn one() -> (r: Self) {
        1
    }

    fn zero() -> (r: Self) {
        0
    }

    fn is_less(self, other: Self) -> (b: bool) {
        self < other
    }

    fn is_equal(self, other: Self) -> (b: bool) {
        self == other
    }

    fn remainder(self, rhs: Self) -> (r: Self) {
        self % rhs
    }

    fn magnitude(self) -> (r: (bool, u128)) {
        if self < 0 {
            (true, (-(self as i128)) as u128)
        } else {
            (false, self as u128)
        }
    }

    fn from_magnitude(negative: bool, magnitude: u128) -> (r: Option<Self>) {
        if negative {
            if magnitude <= isize::MAX as u128 {
                Some(-(magnitude as isize))
            } else if magnitude == (isize::MAX as u128) + 1 {
                Some(isize::MIN)
            } else {
                None
            }
        } else if magnitude <= isize::MAX as u128 {
            Some(magnitude as isize)
        } else {
            None
        }
    }
}

} // verus!
