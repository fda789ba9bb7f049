use vstd::prelude::*;

verus! {

/// Integer element arithmetic used by the kernels: addition, subtraction and
/// multiplication wrap around at the type's width.
pub trait Scalar: Copy {
    spec fn spec_zero() -> Self;

    spec fn spec_one() -> Self;

    spec fn spec_add(a: Self, b: Self) -> Self;

    spec fn spec_sub(a: Self, b: Self) -> Self;

    spec fn spec_mul(a: Self, b: Self) -> Self;

    fn zero() -> (r: Self)
        ensures
            r == Self::spec_zero(),
    ;

    fn one() -> (r: Self)
        ensures
            r == Self::spec_one(),
    ;

    fn add_wrap(a: Self, b: Self) -> (r: Self)
        ensures
            r == Self::spec_add(a, b),
    ;

    fn sub_wrap(a: Self, b: Self) -> (r: Self)
        ensures
            r == Self::spec_sub(a, b),
    ;

    fn mul_wrap(a: Self, b: Self) -> (r: Self)
        ensures
            r == Self::spec_mul(a, b),
    ;

    /// The quotient rounded toward zero, or `None` where dividing fails: by
    /// zero, or past the type's range.
    spec fn spec_quot(a: Self, b: Self) -> Option<Self>;

    fn checked_quot(a: Self, b: Self) -> (r: Option<Self>)
        ensures
            r == Self::spec_quot(a, b),
    ;
}

/// A strict order on elements (`false < true` for booleans).
pub trait Ordered: Copy {
    spec fn spec_lt(a: Self, b: Self) -> bool;

    fn less(a: Self, b: Self) -> (r: bool)
        ensures
            r == Self::spec_lt(a, b),
    ;

    fn equal(a: Self, b: Self) -> (r: bool)
        ensures
            r == (a == b),
    ;

    /// `spec_lt` is a strict total order.
    proof fn lemma_order(a: Self, b: Self, c: Self)
        ensures
            !Self::spec_lt(a, a),
            Self::spec_lt(a, b) && Self::spec_lt(b, c) ==> Self::spec_lt(a, c),
            a != b ==> Self::spec_lt(a, b) || Self::spec_lt(b, a),
            Self::spec_lt(a, b) ==> !Self::spec_lt(b, a),
    ;
}

/// Element types `sub` is available for.
pub trait SubKernel: Scalar {}

/// Element types `mul` is available for.
pub trait MulKernel: Scalar {}

/// Element types `sum_all` and `sum_axis` are available for.
pub trait SumKernel: Scalar {}

/// Element types `prod_all` is available for.
pub trait ProductKernel: Scalar {}

/// Element types `dot2d` is available for.
pub trait DotKernel: Scalar {}

/// Element types `inner2d` is available for.
pub trait Inner2dKernel: Scalar {}

/// Element types `matmul` is available for.
pub trait MatmulKernel: Scalar {}

/// Element types `tensordot_axes` is available for.
pub trait TensordotKernel: Scalar {}

/// Element types `min_all` and `max_all` are available for.
pub trait ExtremeKernel: Ordered {}

/// Element types `argmin` and `argmax` are available for.
pub trait ArgReduceKernel: Ordered {}

impl Scalar for i64 {
    open spec fn spec_zero() -> i64 {
        0
    }

    open spec fn spec_one() -> i64 {
        1
    }

    open spec fn spec_add(a: i64, b: i64) -> i64 {
        vstd::wrapping::i64_specs::wrapping_add(a, b)
    }

    open spec fn spec_sub(a: i64, b: i64) -> i64 {
        vstd::wrapping::i64_specs::wrapping_sub(a, b)
    }

    open spec fn spec_mul(a: i64, b: i64) -> i64 {
        vstd::wrapping::i64_specs::wrapping_mul(a, b)
    }

    fn zero() -> (r: i64) {
        0
    }

    fn one() -> (r: i64) {
        1
    }

    fn add_wrap(a: i64, b: i64) -> (r: i64) {
        a.wrapping_add(b)
    }

    fn sub_wrap(a: i64, b: i64) -> (r: i64) {
        a.wrapping_sub(b)
    }

    fn mul_wrap(a: i64, b: i64) -> (r: i64) {
        a.wrapping_mul(b)
    }

    open spec fn spec_quot(a: i64, b: i64) -> Option<i64> {
        a.checked_div(b)
    }

    fn checked_quot(a: i64, b: i64) -> (r: Option<i64>) {
        a.checked_div(b)
    }
}

impl Ordered for i64 {
    open spec fn spec_lt(a: i64, b: i64) -> bool {
        a < b
    }

    fn less(a: i64, b: i64) -> (r: bool) {
        a < b
    }

    fn equal(a: i64, b: i64) -> (r: bool) {
        a == b
    }

    proof fn lemma_order(a: i64, b: i64, c: i64) {
    }
}

impl SubKernel for i64 {}

impl MulKernel for i64 {}

impl SumKernel for i64 {}

impl ProductKernel for i64 {}

impl DotKernel for i64 {}

impl Inner2dKernel for i64 {}

impl MatmulKernel for i64 {}

impl TensordotKernel for i64 {}

impl ExtremeKernel for i64 {}

impl ArgReduceKernel for i64 {}

impl Scalar for i32 {
    open spec fn spec_zero() -> i32 {
        0
    }

    open spec fn spec_one() -> i32 {
        1
    }

    open spec fn spec_add(a: i32, b: i32) -> i32 {
        vstd::wrapping::i32_specs::wrapping_add(a, b)
    }

    open spec fn spec_sub(a: i32, b: i32) -> i32 {
        vstd::wrapping::i32_specs::wrapping_sub(a, b)
    }

    open spec fn spec_mul(a: i32, b: i32) -> i32 {
        vstd::wrapping::i32_specs::wrapping_mul(a, b)
    }

    fn zero() -> (r: i32) {
        0
    }

    fn one() -> (r: i32) {
        1
    }

    fn add_wrap(a: i32, b: i32) -> (r: i32) {
        a.wrapping_add(b)
    }

    fn sub_wrap(a: i32, b: i32) -> (r: i32) {
        a.wrapping_sub(b)
    }

    fn mul_wrap(a: i32, b: i32) -> (r: i32) {
        a.wrapping_mul(b)
    }

    open spec fn spec_quot(a: i32, b: i32) -> Option<i32> {
        a.checked_div(b)
    }

    fn checked_quot(a: i32, b: i32) -> (r: Option<i32>) {
        a.checked_div(b)
    }
}

impl Ordered for i32 {
    open spec fn spec_lt(a: i32, b: i32) -> bool {
        a < b
    }

    fn less(a: i32, b: i32) -> (r: bool) {
        a < b
    }

    fn equal(a: i32, b: i32) -> (r: bool) {
        a == b
    }

    proof fn lemma_order(a: i32, b: i32, c: i32) {
    }
}

impl SubKernel for i32 {}

impl MulKernel for i32 {}

impl SumKernel for i32 {}

impl ProductKernel for i32 {}

impl DotKernel for i32 {}

impl Inner2dKernel for i32 {}

impl MatmulKernel for i32 {}

impl TensordotKernel for i32 {}

impl ExtremeKernel for i32 {}

impl ArgReduceKernel for i32 {}

impl Scalar for i16 {
    open spec fn spec_zero() -> i16 {
        0
    }

    open spec fn spec_one() -> i16 {
        1
    }

    open spec fn spec_add(a: i16, b: i16) -> i16 {
        vstd::wrapping::i16_specs::wrapping_add(a, b)
    }

    open spec fn spec_sub(a: i16, b: i16) -> i16 {
        vstd::wrapping::i16_specs::wrapping_sub(a, b)
    }

    open spec fn spec_mul(a: i16, b: i16) -> i16 {
        vstd::wrapping::i16_specs::wrapping_mul(a, b)
    }

    fn zero() -> (r: i16) {
        0
    }

    fn one() -> (r: i16) {
        1
    }

    fn add_wrap(a: i16, b: i16) -> (r: i16) {
        a.wrapping_add(b)
    }

    fn sub_wrap(a: i16, b: i16) -> (r: i16) {
        a.wrapping_sub(b)
    }

    fn mul_wrap(a: i16, b: i16) -> (r: i16) {
        a.wrapping_mul(b)
    }

    open spec fn spec_quot(a: i16, b: i16) -> Option<i16> {
        a.checked_div(b)
    }

    fn checked_quot(a: i16, b: i16) -> (r: Option<i16>) {
        a.checked_div(b)
    }
}

impl Ordered for i16 {
    open spec fn spec_lt(a: i16, b: i16) -> bool {
        a < b
    }

    fn less(a: i16, b: i16) -> (r: bool) {
        a < b
    }

    fn equal(a: i16, b: i16) -> (r: bool) {
        a == b
    }

    proof fn lemma_order(a: i16, b: i16, c: i16) {
    }
}

impl SubKernel for i16 {}

impl MulKernel for i16 {}

impl SumKernel for i16 {}

impl ProductKernel for i16 {}

impl DotKernel for i16 {}

impl Inner2dKernel for i16 {}

impl MatmulKernel for i16 {}

impl TensordotKernel for i16 {}

impl ExtremeKernel for i16 {}

impl ArgReduceKernel for i16 {}

impl Scalar for i8 {
    open spec fn spec_zero() -> i8 {
        0
    }

    open spec fn spec_one() -> i8 {
        1
    }

    open spec fn spec_add(a: i8, b: i8) -> i8 {
        vstd::wrapping::i8_specs::wrapping_add(a, b)
    }

    open spec fn spec_sub(a: i8, b: i8) -> i8 {
        vstd::wrapping::i8_specs::wrapping_sub(a, b)
    }

    open spec fn spec_mul(a: i8, b: i8) -> i8 {
        vstd::wrapping::i8_specs::wrapping_mul(a, b)
    }

    fn zero() -> (r: i8) {
        0
    }

    fn one() -> (r: i8) {
        1
    }

    fn add_wrap(a: i8, b: i8) -> (r: i8) {
        a.wrapping_add(b)
    }

    fn sub_wrap(a: i8, b: i8) -> (r: i8) {
        a.wrapping_sub(b)
    }

    fn mul_wrap(a: i8, b: i8) -> (r: i8) {
        a.wrapping_mul(b)
    }

    open spec fn spec_quot(a: i8, b: i8) -> Option<i8> {
        a.checked_div(b)
    }

    fn checked_quot(a: i8, b: i8) -> (r: Option<i8>) {
        a.checked_div(b)
    }
}

impl Ordered for i8 {
    open spec fn spec_lt(a: i8, b: i8) -> bool {
        a < b
    }

    fn less(a: i8, b: i8) -> (r: bool) {
        a < b
    }

    fn equal(a: i8, b: i8) -> (r: bool) {
        a == b
    }

    proof fn lemma_order(a: i8, b: i8, c: i8) {
    }
}

impl SubKernel for i8 {}

impl MulKernel for i8 {}

impl SumKernel for i8 {}

impl ProductKernel for i8 {}

impl DotKernel for i8 {}

impl Inner2dKernel for i8 {}

impl MatmulKernel for i8 {}

impl TensordotKernel for i8 {}

impl ExtremeKernel for i8 {}

impl ArgReduceKernel for i8 {}

impl Scalar for u64 {
    open spec fn spec_zero() -> u64 {
        0
    }

    open spec fn spec_one() -> u64 {
        1
    }

    open spec fn spec_add(a: u64, b: u64) -> u64 {
        vstd::wrapping::u64_specs::wrapping_add(a, b)
    }

    open spec fn spec_sub(a: u64, b: u64) -> u64 {
        vstd::wrapping::u64_specs::wrapping_sub(a, b)
    }

    open spec fn spec_mul(a: u64, b: u64) -> u64 {
        vstd::wrapping::u64_specs::wrapping_mul(a, b)
    }

    fn zero() -> (r: u64) {
        0
    }

    fn one() -> (r: u64) {
        1
    }

    fn add_wrap(a: u64, b: u64) -> (r: u64) {
        a.wrapping_add(b)
    }

    fn sub_wrap(a: u64, b: u64) -> (r: u64) {
        a.wrapping_sub(b)
    }

    fn mul_wrap(a: u64, b: u64) -> (r: u64) {
        a.wrapping_mul(b)
    }

    open spec fn spec_quot(a: u64, b: u64) -> Option<u64> {
        a.checked_div(b)
    }

    fn checked_quot(a: u64, b: u64) -> (r: Option<u64>) {
        a.checked_div(b)
    }
}

impl Ordered for u64 {
    open spec fn spec_lt(a: u64, b: u64) -> bool {
        a < b
    }

    fn less(a: u64, b: u64) -> (r: bool) {
        a < b
    }

    fn equal(a: u64, b: u64) -> (r: bool) {
        a == b
    }

    proof fn lemma_order(a: u64, b: u64, c: u64) {
    }
}

impl SubKernel for u64 {}

impl MulKernel for u64 {}

impl SumKernel for u64 {}

impl ProductKernel for u64 {}

impl DotKernel for u64 {}

impl Inner2dKernel for u64 {}

impl MatmulKernel for u64 {}

impl TensordotKernel for u64 {}

impl ExtremeKernel for u64 {}

impl ArgReduceKernel for u64 {}

impl Scalar for u32 {
    open spec fn spec_zero() -> u32 {
        0
    }

    open spec fn spec_one() -> u32 {
        1
    }

    open spec fn spec_add(a: u32, b: u32) -> u32 {
        vstd::wrapping::u32_specs::wrapping_add(a, b)
    }

    open spec fn spec_sub(a: u32, b: u32) -> u32 {
        vstd::wrapping::u32_specs::wrapping_sub(a, b)
    }

    open spec fn spec_mul(a: u32, b: u32) -> u32 {
        vstd::wrapping::u32_specs::wrapping_mul(a, b)
    }

    fn zero() -> (r: u32) {
        0
    }

    fn one() -> (r: u32) {
        1
    }

    fn add_wrap(a: u32, b: u32) -> (r: u32) {
        a.wrapping_add(b)
    }

    fn sub_wrap(a: u32, b: u32) -> (r: u32) {
        a.wrapping_sub(b)
    }

    fn mul_wrap(a: u32, b: u32) -> (r: u32) {
        a.wrapping_mul(b)
    }

    open spec fn spec_quot(a: u32, b: u32) -> Option<u32> {
        a.checked_div(b)
    }

    fn checked_quot(a: u32, b: u32) -> (r: Option<u32>) {
        a.checked_div(b)
    }
}

impl Ordered for u32 {
    open spec fn spec_lt(a: u32, b: u32) -> bool {
        a < b
    }

    fn less(a: u32, b: u32) -> (r: bool) {
        a < b
    }

    fn equal(a: u32, b: u32) -> (r: bool) {
        a == b
    }

    proof fn lemma_order(a: u32, b: u32, c: u32) {
    }
}

impl SubKernel for u32 {}

impl MulKernel for u32 {}

impl SumKernel for u32 {}

impl ProductKernel for u32 {}

impl DotKernel for u32 {}

impl Inner2dKernel for u32 {}

impl MatmulKernel for u32 {}

impl TensordotKernel for u32 {}

impl ExtremeKernel for u32 {}

impl ArgReduceKernel for u32 {}

impl Scalar for u16 {
    open spec fn spec_zero() -> u16 {
        0
    }

    open spec fn spec_one() -> u16 {
        1
    }

    open spec fn spec_add(a: u16, b: u16) -> u16 {
        vstd::wrapping::u16_specs::wrapping_add(a, b)
    }

    open spec fn spec_sub(a: u16, b: u16) -> u16 {
        vstd::wrapping::u16_specs::wrapping_sub(a, b)
    }

    open spec fn spec_mul(a: u16, b: u16) -> u16 {
        vstd::wrapping::u16_specs::wrapping_mul(a, b)
    }

    fn zero() -> (r: u16) {
        0
    }

    fn one() -> (r: u16) {
        1
    }

    fn add_wrap(a: u16, b: u16) -> (r: u16) {
        a.wrapping_add(b)
    }

    fn sub_wrap(a: u16, b: u16) -> (r: u16) {
        a.wrapping_sub(b)
    }

    fn mul_wrap(a: u16, b: u16) -> (r: u16) {
        a.wrapping_mul(b)
    }

    open spec fn spec_quot(a: u16, b: u16) -> Option<u16> {
        a.checked_div(b)
    }

    fn checked_quot(a: u16, b: u16) -> (r: Option<u16>) {
        a.checked_div(b)
    }
}

impl Ordered for u16 {
    open spec fn spec_lt(a: u16, b: u16) -> bool {
        a < b
    }

    fn less(a: u16, b: u16) -> (r: bool) {
        a < b
    }

    fn equal(a: u16, b: u16) -> (r: bool) {
        a == b
    }

    proof fn lemma_order(a: u16, b: u16, c: u16) {
    }
}

impl SubKernel for u16 {}

impl MulKernel for u16 {}

impl SumKernel for u16 {}

impl ProductKernel for u16 {}

impl DotKernel for u16 {}

impl Inner2dKernel for u16 {}

impl MatmulKernel for u16 {}

impl TensordotKernel for u16 {}

impl ExtremeKernel for u16 {}

impl ArgReduceKernel for u16 {}

impl Scalar for u8 {
    open spec fn spec_zero() -> u8 {
        0
    }

    open spec fn spec_one() -> u8 {
        1
    }

    open spec fn spec_add(a: u8, b: u8) -> u8 {
        vstd::wrapping::u8_specs::wrapping_add(a, b)
    }

    open spec fn spec_sub(a: u8, b: u8) -> u8 {
        vstd::wrapping::u8_specs::wrapping_sub(a, b)
    }

    open spec fn spec_mul(a: u8, b: u8) -> u8 {
        vstd::wrapping::u8_specs::wrapping_mul(a, b)
    }

    fn zero() -> (r: u8) {
        0
    }

    fn one() -> (r: u8) {
        1
    }

    fn add_wrap(a: u8, b: u8) -> (r: u8) {
        a.wrapping_add(b)
    }

    fn sub_wrap(a: u8, b: u8) -> (r: u8) {
        a.wrapping_sub(b)
    }

    fn mul_wrap(a: u8, b: u8) -> (r: u8) {
        a.wrapping_mul(b)
    }

    open spec fn spec_quot(a: u8, b: u8) -> Option<u8> {
        a.checked_div(b)
    }

    fn checked_quot(a: u8, b: u8) -> (r: Option<u8>) {
        a.checked_div(b)
    }
}

impl Ordered for u8 {
    open spec fn spec_lt(a: u8, b: u8) -> bool {
        a < b
    }

    fn less(a: u8, b: u8) -> (r: bool) {
        a < b
    }

    fn equal(a: u8, b: u8) -> (r: bool) {
        a == b
    }

    proof fn lemma_order(a: u8, b: u8, c: u8) {
    }
}

impl SubKernel for u8 {}

impl MulKernel for u8 {}

impl SumKernel for u8 {}

impl ProductKernel for u8 {}

impl DotKernel for u8 {}

impl Inner2dKernel for u8 {}

impl MatmulKernel for u8 {}

impl TensordotKernel for u8 {}

impl ExtremeKernel for u8 {}

impl ArgReduceKernel for u8 {}

impl Ordered for bool {
    open spec fn spec_lt(a: bool, b: bool) -> bool {
        !a && b
    }

    fn less(a: bool, b: bool) -> (r: bool) {
        !a && b
    }

    fn equal(a: bool, b: bool) -> (r: bool) {
        a == b
    }

    proof fn lemma_order(a: bool, b: bool, c: bool) {
    }
}

impl ExtremeKernel for bool {}

impl ArgReduceKernel for bool {}

} // verus!
