use vstd::prelude::*;

verus! {

/// The element kinds an array can hold.
#[derive(Debug, Clone, Copy, PartialEq, Eq, Hash, Structural)]
pub enum DTypeKind {
    F64,
    F32,
    Complex128,
    Complex64,
    I64,
    I32,
    I16,
    I8,
    U64,
    U32,
    U16,
    U8,
    Bool,
}

pub open spec fn is_float_spec(k: DTypeKind) -> bool {
    k == DTypeKind::F32 || k == DTypeKind::F64 || k == DTypeKind::Complex64 || k == DTypeKind::Complex128
}

pub open spec fn is_signed_spec(k: DTypeKind) -> bool {
    k == DTypeKind::I8 || k == DTypeKind::I16 || k == DTypeKind::I32 || k == DTypeKind::I64
}

pub open spec fn is_unsigned_spec(k: DTypeKind) -> bool {
    k == DTypeKind::U8 || k == DTypeKind::U16 || k == DTypeKind::U32 || k == DTypeKind::U64
}

/// Bytes per element.
pub open spec fn itemsize_spec(k: DTypeKind) -> usize {
    match k {
        DTypeKind::Complex128 => 16,
        DTypeKind::F64 | DTypeKind::I64 | DTypeKind::U64 | DTypeKind::Complex64 => 8,
        DTypeKind::F32 | DTypeKind::I32 | DTypeKind::U32 => 4,
        DTypeKind::I16 | DTypeKind::U16 => 2,
        DTypeKind::I8 | DTypeKind::U8 | DTypeKind::Bool => 1,
    }
}

/// Width in bits of an integer or boolean kind; none for floating kinds.
pub open spec fn integer_bits_spec(k: DTypeKind) -> Option<usize> {
    match k {
        DTypeKind::Bool => Some(1),
        DTypeKind::I8 | DTypeKind::U8 => Some(8),
        DTypeKind::I16 | DTypeKind::U16 => Some(16),
        DTypeKind::I32 | DTypeKind::U32 => Some(32),
        DTypeKind::I64 | DTypeKind::U64 => Some(64),
        _ => None,
    }
}

impl DTypeKind {
    pub fn is_float(self) -> (r: bool)
        ensures
            r == is_float_spec(self),
    {
        match self {
            DTypeKind::F32 | DTypeKind::F64 | DTypeKind::Complex64 | DTypeKind::Complex128 => true,
            _ => false,
        }
    }

    pub fn is_signed_integer(self) -> (r: bool)
        ensures
            r == is_signed_spec(self),
    {
        match self {
            DTypeKind::I8 | DTypeKind::I16 | DTypeKind::I32 | DTypeKind::I64 => true,
            _ => false,
        }
    }

    pub fn is_unsigned_integer(self) -> (r: bool)
        ensures
            r == is_unsigned_spec(self),
    {
        match self {
            DTypeKind::U8 | DTypeKind::U16 | DTypeKind::U32 | DTypeKind::U64 => true,
            _ => false,
        }
    }

    /// Bytes per element.
    pub fn itemsize(self) -> (r: usize)
        ensures
            r == itemsize_spec(self),
    {
        match self {
            DTypeKind::Complex128 => 16,
            DTypeKind::F64 | DTypeKind::I64 | DTypeKind::U64 | DTypeKind::Complex64 => 8,
            DTypeKind::F32 | DTypeKind::I32 | DTypeKind::U32 => 4,
            DTypeKind::I16 | DTypeKind::U16 => 2,
            DTypeKind::I8 | DTypeKind::U8 | DTypeKind::Bool => 1,
        }
    }

    fn integer_bits(self) -> (r: Option<usize>)
        ensures
            r == integer_bits_spec(self),
    {
        match self {
            DTypeKind::Bool => Some(1),
            DTypeKind::I8 | DTypeKind::U8 => Some(8),
            DTypeKind::I16 | DTypeKind::U16 => Some(16),
            DTypeKind::I32 | DTypeKind::U32 => Some(32),
            DTypeKind::I64 | DTypeKind::U64 => Some(64),
            _ => None,
        }
    }
}

/// The narrowest signed kind with at least `bits` bits (64 at most).
pub open spec fn signed_for_bits_spec(bits: usize) -> DTypeKind {
    if bits <= 8 {
        DTypeKind::I8
    } else if bits <= 16 {
        DTypeKind::I16
    } else if bits <= 32 {
        DTypeKind::I32
    } else {
        DTypeKind::I64
    }
}

/// The narrowest unsigned kind with at least `bits` bits (64 at most).
pub open spec fn unsigned_for_bits_spec(bits: usize) -> DTypeKind {
    if bits <= 8 {
        DTypeKind::U8
    } else if bits <= 16 {
        DTypeKind::U16
    } else if bits <= 32 {
        DTypeKind::U32
    } else {
        DTypeKind::U64
    }
}

fn signed_for_bits(bits: usize) -> (r: DTypeKind)
    ensures
        r == signed_for_bits_spec(bits),
{
    if bits <= 8 {
        DTypeKind::I8
    } else if bits <= 16 {
        DTypeKind::I16
    } else if bits <= 32 {
        DTypeKind::I32
    } else {
        DTypeKind::I64
    }
}

fn unsigned_for_bits(bits: usize) -> (r: DTypeKind)
    ensures
        r == unsigned_for_bits_spec(bits),
{
    if bits <= 8 {
        DTypeKind::U8
    } else if bits <= 16 {
        DTypeKind::U16
    } else if bits <= 32 {
        DTypeKind::U32
    } else {
        DTypeKind::U64
    }
}

pub open spec fn max_usize(a: usize, b: usize) -> usize {
    if a >= b {
        a
    } else {
        b
    }
}

/// The bit width of an integer kind.
pub open spec fn bits_of(k: DTypeKind) -> usize {
    match integer_bits_spec(k) {
        Some(b) => b,
        None => 0,
    }
}

/// NumPy-style type promotion: the kind that can represent values of both kinds.
pub open spec fn promote_spec(left: DTypeKind, right: DTypeKind) -> DTypeKind {
    if left == right {
        left
    } else if left == DTypeKind::Complex128 || right == DTypeKind::Complex128 {
        DTypeKind::Complex128
    } else if left == DTypeKind::Complex64 || right == DTypeKind::Complex64 {
        let other = if left == DTypeKind::Complex64 { right } else { left };
        if other == DTypeKind::F64 || other == DTypeKind::I64 || other == DTypeKind::U64 {
            DTypeKind::Complex128
        } else {
            DTypeKind::Complex64
        }
    } else if left == DTypeKind::F64 || right == DTypeKind::F64 {
        DTypeKind::F64
    } else if left == DTypeKind::F32 || right == DTypeKind::F32 {
        let other = if left == DTypeKind::F32 { right } else { left };
        if other == DTypeKind::I64 || other == DTypeKind::U64 {
            DTypeKind::F64
        } else {
            DTypeKind::F32
        }
    } else if left == DTypeKind::Bool {
        right
    } else if right == DTypeKind::Bool {
        left
    } else if is_signed_spec(left) && is_signed_spec(right) {
        signed_for_bits_spec(max_usize(bits_of(left), bits_of(right)))
    } else if !is_signed_spec(left) && !is_signed_spec(right) {
        unsigned_for_bits_spec(max_usize(bits_of(left), bits_of(right)))
    } else {
        let signed_bits = if is_signed_spec(left) { bits_of(left) } else { bits_of(right) };
        let unsigned_bits = if is_unsigned_spec(left) { bits_of(left) } else { bits_of(right) };
        if signed_bits > unsigned_bits {
            signed_for_bits_spec(signed_bits)
        } else {
            signed_for_bits_spec((unsigned_bits * 2) as usize)
        }
    }
}

fn bits(k: DTypeKind) -> (r: usize)
    ensures
        r == bits_of(k),
        integer_bits_spec(k) is Some ==> r <= 64,
{
    match k.integer_bits() {
        Some(b) => b,
        None => 0,
    }
}

/// Promote two kinds to the kind that can hold values of both.
pub fn promote_dtype(left: DTypeKind, right: DTypeKind) -> (r: DTypeKind)
    ensures
        r == promote_spec(left, right),
{
    if left == right {
        return left;
    }
    if left == DTypeKind::Complex128 || right == DTypeKind::Complex128 {
        return DTypeKind::Complex128;
    }
    if left == DTypeKind::Complex64 || right == DTypeKind::Complex64 {
        let other = if left == DTypeKind::Complex64 { right } else { left };
        return if other == DTypeKind::F64 || other == DTypeKind::I64 || other == DTypeKind::U64 {
            DTypeKind::Complex128
        } else {
            DTypeKind::Complex64
        };
    }
    if left == DTypeKind::F64 || right == DTypeKind::F64 {
        return DTypeKind::F64;
    }
    if left == DTypeKind::F32 || right == DTypeKind::F32 {
        let other = if left == DTypeKind::F32 { right } else { left };
        return if other == DTypeKind::I64 || other == DTypeKind::U64 {
            DTypeKind::F64
        } else {
            DTypeKind::F32
        };
    }
    if left == DTypeKind::Bool {
        return right;
    }
    if right == DTypeKind::Bool {
        return left;
    }
    let lb = bits(left);
    let rb = bits(right);
    let ls = left.is_signed_integer();
    let rs = right.is_signed_integer();
    if ls && rs {
        signed_for_bits(if lb >= rb { lb } else { rb })
    } else if !ls && !rs {
        unsigned_for_bits(if lb >= rb { lb } else { rb })
    } else {
        let signed_bits = if ls { lb } else { rb };
        let unsigned_bits = if left.is_unsigned_integer() { lb } else { rb };
        if signed_bits > unsigned_bits {
            signed_for_bits(signed_bits)
        } else {
            signed_for_bits(unsigned_bits * 2)
        }
    }
}

/// Element types with a known kind.
pub trait DType: Copy {
    const KIND: DTypeKind;
}

/// Element-wise conversion to another element type, as Rust's `as` casts
/// do (integers wrap to the target width); zero is false and non-zero true.
pub trait CastElement<U>: Copy {
    spec fn cast_spec(self) -> U;

    fn cast(self) -> (r: U)
        ensures
            r == self.cast_spec(),
    ;
}

impl DType for i64 {
    const KIND: DTypeKind = DTypeKind::I64;
}

impl DType for i32 {
    const KIND: DTypeKind = DTypeKind::I32;
}

impl DType for i16 {
    const KIND: DTypeKind = DTypeKind::I16;
}

impl DType for i8 {
    const KIND: DTypeKind = DTypeKind::I8;
}

impl DType for u64 {
    const KIND: DTypeKind = DTypeKind::U64;
}

impl DType for u32 {
    const KIND: DTypeKind = DTypeKind::U32;
}

impl DType for u16 {
    const KIND: DTypeKind = DTypeKind::U16;
}

impl DType for u8 {
    const KIND: DTypeKind = DTypeKind::U8;
}

impl DType for bool {
    const KIND: DTypeKind = DTypeKind::Bool;
}

impl CastElement<i64> for i64 {
    open spec fn cast_spec(self) -> i64 {
        self as i64
    }

    fn cast(self) -> (r: i64) {
        #[verifier::truncate]
        (self as i64)
    }
}

impl CastElement<i32> for i64 {
    open spec fn cast_spec(self) -> i32 {
        self as i32
    }

    fn cast(self) -> (r: i32) {
        #[verifier::truncate]
        (self as i32)
    }
}

impl CastElement<i16> for i64 {
    open spec fn cast_spec(self) -> i16 {
        self as i16
    }

    fn cast(self) -> (r: i16) {
        #[verifier::truncate]
        (self as i16)
    }
}

impl CastElement<i8> for i64 {
    open spec fn cast_spec(self) -> i8 {
        self as i8
    }

    fn cast(self) -> (r: i8) {
        #[verifier::truncate]
        (self as i8)
    }
}

impl CastElement<u64> for i64 {
    open spec fn cast_spec(self) -> u64 {
        self as u64
    }

    fn cast(self) -> (r: u64) {
        #[verifier::truncate]
        (self as u64)
    }
}

impl CastElement<u32> for i64 {
    open spec fn cast_spec(self) -> u32 {
        self as u32
    }

    fn cast(self) -> (r: u32) {
        #[verifier::truncate]
        (self as u32)
    }
}

impl CastElement<u16> for i64 {
    open spec fn cast_spec(self) -> u16 {
        self as u16
    }

    fn cast(self) -> (r: u16) {
        #[verifier::truncate]
        (self as u16)
    }
}

impl CastElement<u8> for i64 {
    open spec fn cast_spec(self) -> u8 {
        self as u8
    }

    fn cast(self) -> (r: u8) {
        #[verifier::truncate]
        (self as u8)
    }
}

impl CastElement<bool> for i64 {
    open spec fn cast_spec(self) -> bool {
        self != 0
    }

    fn cast(self) -> (r: bool) {
        self != 0
    }
}

impl CastElement<i64> for bool {
    open spec fn cast_spec(self) -> i64 {
        if self {
            1
        } else {
            0
        }
    }

    fn cast(self) -> (r: i64) {
        if self {
            1
        } else {
            0
        }
    }
}

impl CastElement<i64> for i32 {
    open spec fn cast_spec(self) -> i64 {
        self as i64
    }

    fn cast(self) -> (r: i64) {
        #[verifier::truncate]
        (self as i64)
    }
}

impl CastElement<i32> for i32 {
    open spec fn cast_spec(self) -> i32 {
        self as i32
    }

    fn cast(self) -> (r: i32) {
        #[verifier::truncate]
        (self as i32)
    }
}

impl CastElement<i16> for i32 {
    open spec fn cast_spec(self) -> i16 {
        self as i16
    }

    fn cast(self) -> (r: i16) {
        #[verifier::truncate]
        (self as i16)
    }
}

impl CastElement<i8> for i32 {
    open spec fn cast_spec(self) -> i8 {
        self as i8
    }

    fn cast(self) -> (r: i8) {
        #[verifier::truncate]
        (self as i8)
    }
}

impl CastElement<u64> for i32 {
    open spec fn cast_spec(self) -> u64 {
        self as u64
    }

    fn cast(self) -> (r: u64) {
        #[verifier::truncate]
        (self as u64)
    }
}

impl CastElement<u32> for i32 {
    open spec fn cast_spec(self) -> u32 {
        self as u32
    }

    fn cast(self) -> (r: u32) {
        #[verifier::truncate]
        (self as u32)
    }
}

impl CastElement<u16> for i32 {
    open spec fn cast_spec(self) -> u16 {
        self as u16
    }

    fn cast(self) -> (r: u16) {
        #[verifier::truncate]
        (self as u16)
    }
}

impl CastElement<u8> for i32 {
    open spec fn cast_spec(self) -> u8 {
        self as u8
    }

    fn cast(self) -> (r: u8) {
        #[verifier::truncate]
        (self as u8)
    }
}

impl CastElement<bool> for i32 {
    open spec fn cast_spec(self) -> bool {
        self != 0
    }

    fn cast(self) -> (r: bool) {
        self != 0
    }
}

impl CastElement<i32> for bool {
    open spec fn cast_spec(self) -> i32 {
        if self {
            1
        } else {
            0
        }
    }

    fn cast(self) -> (r: i32) {
        if self {
            1
        } else {
            0
        }
    }
}

impl CastElement<i64> for i16 {
    open spec fn cast_spec(self) -> i64 {
        self as i64
    }

    fn cast(self) -> (r: i64) {
        #[verifier::truncate]
        (self as i64)
    }
}

impl CastElement<i32> for i16 {
    open spec fn cast_spec(self) -> i32 {
        self as i32
    }

    fn cast(self) -> (r: i32) {
        #[verifier::truncate]
        (self as i32)
    }
}

impl CastElement<i16> for i16 {
    open spec fn cast_spec(self) -> i16 {
        self as i16
    }

    fn cast(self) -> (r: i16) {
        #[verifier::truncate]
        (self as i16)
    }
}

impl CastElement<i8> for i16 {
    open spec fn cast_spec(self) -> i8 {
        self as i8
    }

    fn cast(self) -> (r: i8) {
        #[verifier::truncate]
        (self as i8)
    }
}

impl CastElement<u64> for i16 {
    open spec fn cast_spec(self) -> u64 {
        self as u64
    }

    fn cast(self) -> (r: u64) {
        #[verifier::truncate]
        (self as u64)
    }
}

impl CastElement<u32> for i16 {
    open spec fn cast_spec(self) -> u32 {
        self as u32
    }

    fn cast(self) -> (r: u32) {
        #[verifier::truncate]
        (self as u32)
    }
}

impl CastElement<u16> for i16 {
    open spec fn cast_spec(self) -> u16 {
        self as u16
    }

    fn cast(self) -> (r: u16) {
        #[verifier::truncate]
        (self as u16)
    }
}

impl CastElement<u8> for i16 {
    open spec fn cast_spec(self) -> u8 {
        self as u8
    }

    fn cast(self) -> (r: u8) {
        #[verifier::truncate]
        (self as u8)
    }
}

impl CastElement<bool> for i16 {
    open spec fn cast_spec(self) -> bool {
        self != 0
    }

    fn cast(self) -> (r: bool) {
        self != 0
    }
}

impl CastElement<i16> for bool {
    open spec fn cast_spec(self) -> i16 {
        if self {
            1
        } else {
            0
        }
    }

    fn cast(self) -> (r: i16) {
        if self {
            1
        } else {
            0
        }
    }
}

impl CastElement<i64> for i8 {
    open spec fn cast_spec(self) -> i64 {
        self as i64
    }

    fn cast(self) -> (r: i64) {
        #[verifier::truncate]
        (self as i64)
    }
}

impl CastElement<i32> for i8 {
    open spec fn cast_spec(self) -> i32 {
        self as i32
    }

    fn cast(self) -> (r: i32) {
        #[verifier::truncate]
        (self as i32)
    }
}

impl CastElement<i16> for i8 {
    open spec fn cast_spec(self) -> i16 {
        self as i16
    }

    fn cast(self) -> (r: i16) {
        #[verifier::truncate]
        (self as i16)
    }
}

impl CastElement<i8> for i8 {
    open spec fn cast_spec(self) -> i8 {
        self as i8
    }

    fn cast(self) -> (r: i8) {
        #[verifier::truncate]
        (self as i8)
    }
}

impl CastElement<u64> for i8 {
    open spec fn cast_spec(self) -> u64 {
        self as u64
    }

    fn cast(self) -> (r: u64) {
        #[verifier::truncate]
        (self as u64)
    }
}

impl CastElement<u32> for i8 {
    open spec fn cast_spec(self) -> u32 {
        self as u32
    }

    fn cast(self) -> (r: u32) {
        #[verifier::truncate]
        (self as u32)
    }
}

impl CastElement<u16> for i8 {
    open spec fn cast_spec(self) -> u16 {
        self as u16
    }

    fn cast(self) -> (r: u16) {
        #[verifier::truncate]
        (self as u16)
    }
}

impl CastElement<u8> for i8 {
    open spec fn cast_spec(self) -> u8 {
        self as u8
    }

    fn cast(self) -> (r: u8) {
        #[verifier::truncate]
        (self as u8)
    }
}

impl CastElement<bool> for i8 {
    open spec fn cast_spec(self) -> bool {
        self != 0
    }

    fn cast(self) -> (r: bool) {
        self != 0
    }
}

impl CastElement<i8> for bool {
    open spec fn cast_spec(self) -> i8 {
        if self {
            1
        } else {
            0
        }
    }

    fn cast(self) -> (r: i8) {
        if self {
            1
        } else {
            0
        }
    }
}

impl CastElement<i64> for u64 {
    open spec fn cast_spec(self) -> i64 {
        self as i64
    }

    fn cast(self) -> (r: i64) {
        #[verifier::truncate]
        (self as i64)
    }
}

impl CastElement<i32> for u64 {
    open spec fn cast_spec(self) -> i32 {
        self as i32
    }

    fn cast(self) -> (r: i32) {
        #[verifier::truncate]
        (self as i32)
    }
}

impl CastElement<i16> for u64 {
    open spec fn cast_spec(self) -> i16 {
        self as i16
    }

    fn cast(self) -> (r: i16) {
        #[verifier::truncate]
        (self as i16)
    }
}

impl CastElement<i8> for u64 {
    open spec fn cast_spec(self) -> i8 {
        self as i8
    }

    fn cast(self) -> (r: i8) {
        #[verifier::truncate]
        (self as i8)
    }
}

impl CastElement<u64> for u64 {
    open spec fn cast_spec(self) -> u64 {
        self as u64
    }

    fn cast(self) -> (r: u64) {
        #[verifier::truncate]
        (self as u64)
    }
}

impl CastElement<u32> for u64 {
    open spec fn cast_spec(self) -> u32 {
        self as u32
    }

    fn cast(self) -> (r: u32) {
        #[verifier::truncate]
        (self as u32)
    }
}

impl CastElement<u16> for u64 {
    open spec fn cast_spec(self) -> u16 {
        self as u16
    }

    fn cast(self) -> (r: u16) {
        #[verifier::truncate]
        (self as u16)
    }
}

impl CastElement<u8> for u64 {
    open spec fn cast_spec(self) -> u8 {
        self as u8
    }

    fn cast(self) -> (r: u8) {
        #[verifier::truncate]
        (self as u8)
    }
}

impl CastElement<bool> for u64 {
    open spec fn cast_spec(self) -> bool {
        self != 0
    }

    fn cast(self) -> (r: bool) {
        self != 0
    }
}

impl CastElement<u64> for bool {
    open spec fn cast_spec(self) -> u64 {
        if self {
            1
        } else {
            0
        }
    }

    fn cast(self) -> (r: u64) {
        if self {
            1
        } else {
            0
        }
    }
}

impl CastElement<i64> for u32 {
    open spec fn cast_spec(self) -> i64 {
        self as i64
    }

    fn cast(self) -> (r: i64) {
        #[verifier::truncate]
        (self as i64)
    }
}

impl CastElement<i32> for u32 {
    open spec fn cast_spec(self) -> i32 {
        self as i32
    }

    fn cast(self) -> (r: i32) {
        #[verifier::truncate]
        (self as i32)
    }
}

impl CastElement<i16> for u32 {
    open spec fn cast_spec(self) -> i16 {
        self as i16
    }

    fn cast(self) -> (r: i16) {
        #[verifier::truncate]
        (self as i16)
    }
}

impl CastElement<i8> for u32 {
    open spec fn cast_spec(self) -> i8 {
        self as i8
    }

    fn cast(self) -> (r: i8) {
        #[verifier::truncate]
        (self as i8)
    }
}

impl CastElement<u64> for u32 {
    open spec fn cast_spec(self) -> u64 {
        self as u64
    }

    fn cast(self) -> (r: u64) {
        #[verifier::truncate]
        (self as u64)
    }
}

impl CastElement<u32> for u32 {
    open spec fn cast_spec(self) -> u32 {
        self as u32
    }

    fn cast(self) -> (r: u32) {
        #[verifier::truncate]
        (self as u32)
    }
}

impl CastElement<u16> for u32 {
    open spec fn cast_spec(self) -> u16 {
        self as u16
    }

    fn cast(self) -> (r: u16) {
        #[verifier::truncate]
        (self as u16)
    }
}

impl CastElement<u8> for u32 {
    open spec fn cast_spec(self) -> u8 {
        self as u8
    }

    fn cast(self) -> (r: u8) {
        #[verifier::truncate]
        (self as u8)
    }
}

impl CastElement<bool> for u32 {
    open spec fn cast_spec(self) -> bool {
        self != 0
    }

    fn cast(self) -> (r: bool) {
        self != 0
    }
}

impl CastElement<u32> for bool {
    open spec fn cast_spec(self) -> u32 {
        if self {
            1
        } else {
            0
        }
    }

    fn cast(self) -> (r: u32) {
        if self {
            1
        } else {
            0
        }
    }
}

impl CastElement<i64> for u16 {
    open spec fn cast_spec(self) -> i64 {
        self as i64
    }

    fn cast(self) -> (r: i64) {
        #[verifier::truncate]
        (self as i64)
    }
}

impl CastElement<i32> for u16 {
    open spec fn cast_spec(self) -> i32 {
        self as i32
    }

    fn cast(self) -> (r: i32) {
        #[verifier::truncate]
        (self as i32)
    }
}

impl CastElement<i16> for u16 {
    open spec fn cast_spec(self) -> i16 {
        self as i16
    }

    fn cast(self) -> (r: i16) {
        #[verifier::truncate]
        (self as i16)
    }
}

impl CastElement<i8> for u16 {
    open spec fn cast_spec(self) -> i8 {
        self as i8
    }

    fn cast(self) -> (r: i8) {
        #[verifier::truncate]
        (self as i8)
    }
}

impl CastElement<u64> for u16 {
    open spec fn cast_spec(self) -> u64 {
        self as u64
    }

    fn cast(self) -> (r: u64) {
        #[verifier::truncate]
        (self as u64)
    }
}

impl CastElement<u32> for u16 {
    open spec fn cast_spec(self) -> u32 {
        self as u32
    }

    fn cast(self) -> (r: u32) {
        #[verifier::truncate]
        (self as u32)
    }
}

impl CastElement<u16> for u16 {
    open spec fn cast_spec(self) -> u16 {
        self as u16
    }

    fn cast(self) -> (r: u16) {
        #[verifier::truncate]
        (self as u16)
    }
}

impl CastElement<u8> for u16 {
    open spec fn cast_spec(self) -> u8 {
        self as u8
    }

    fn cast(self) -> (r: u8) {
        #[verifier::truncate]
        (self as u8)
    }
}

impl CastElement<bool> for u16 {
    open spec fn cast_spec(self) -> bool {
        self != 0
    }

    fn cast(self) -> (r: bool) {
        self != 0
    }
}

impl CastElement<u16> for bool {
    open spec fn cast_spec(self) -> u16 {
        if self {
            1
        } else {
            0
        }
    }

    fn cast(self) -> (r: u16) {
        if self {
            1
        } else {
            0
        }
    }
}

impl CastElement<i64> for u8 {
    open spec fn cast_spec(self) -> i64 {
        self as i64
    }

    fn cast(self) -> (r: i64) {
        #[verifier::truncate]
        (self as i64)
    }
}

impl CastElement<i32> for u8 {
    open spec fn cast_spec(self) -> i32 {
        self as i32
    }

    fn cast(self) -> (r: i32) {
        #[verifier::truncate]
        (self as i32)
    }
}

impl CastElement<i16> for u8 {
    open spec fn cast_spec(self) -> i16 {
        self as i16
    }

    fn cast(self) -> (r: i16) {
        #[verifier::truncate]
        (self as i16)
    }
}

impl CastElement<i8> for u8 {
    open spec fn cast_spec(self) -> i8 {
        self as i8
    }

    fn cast(self) -> (r: i8) {
        #[verifier::truncate]
        (self as i8)
    }
}

impl CastElement<u64> for u8 {
    open spec fn cast_spec(self) -> u64 {
        self as u64
    }

    fn cast(self) -> (r: u64) {
        #[verifier::truncate]
        (self as u64)
    }
}

impl CastElement<u32> for u8 {
    open spec fn cast_spec(self) -> u32 {
        self as u32
    }

    fn cast(self) -> (r: u32) {
        #[verifier::truncate]
        (self as u32)
    }
}

impl CastElement<u16> for u8 {
    open spec fn cast_spec(self) -> u16 {
        self as u16
    }

    fn cast(self) -> (r: u16) {
        #[verifier::truncate]
        (self as u16)
    }
}

impl CastElement<u8> for u8 {
    open spec fn cast_spec(self) -> u8 {
        self as u8
    }

    fn cast(self) -> (r: u8) {
        #[verifier::truncate]
        (self as u8)
    }
}

impl CastElement<bool> for u8 {
    open spec fn cast_spec(self) -> bool {
        self != 0
    }

    fn cast(self) -> (r: bool) {
        self != 0
    }
}

impl CastElement<u8> for bool {
    open spec fn cast_spec(self) -> u8 {
        if self {
            1
        } else {
            0
        }
    }

    fn cast(self) -> (r: u8) {
        if self {
            1
        } else {
            0
        }
    }
}

impl CastElement<bool> for bool {
    open spec fn cast_spec(self) -> bool {
        self
    }

    fn cast(self) -> (r: bool) {
        self
    }
}

} // verus!
