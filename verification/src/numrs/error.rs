use vstd::prelude::*;
use crate::text::decimal_text;
use crate::display::{
    isize_ints, list_text, push_decimal, push_isize_list, push_signed, push_str, push_usize_list, signed_text,
    string_from_chars, usize_ints,
};

verus! {

/// Errors reported by array construction, layout and kernel operations.
#[allow(inconsistent_fields)]
#[derive(Debug, Clone, PartialEq, Eq)]
pub enum NumRsError {
    ShapeDataMismatch { shape: Vec<usize>, expected: usize, actual: usize },
    ShapeOverflow,
    InvalidShape(String),
    BroadcastMismatch { left: Vec<usize>, right: Vec<usize> },
    IndexRankMismatch { expected: usize, actual: usize },
    IndexOutOfBounds { axis: usize, index: isize, len: usize },
    InvalidSlice(String),
    AxisOutOfBounds { axis: isize, ndim: usize },
    DuplicateAxis(usize),
    NonContiguousReshape { shape: Vec<usize>, strides: Vec<isize> },
    DotShapeMismatch { left: Vec<usize>, right: Vec<usize> },
    EmptyReduction,
    CannotSqueezeAxis { axis: usize, len: usize },
    BooleanMaskShapeMismatch { array: Vec<usize>, mask: Vec<usize> },
}

/// The description of an error, as its `Display` text reads: the kind and
/// the values it carries, numbers in decimal and shapes as bracketed lists.
pub open spec fn message_text(e: NumRsError) -> Seq<char> {
    match e {
        NumRsError::ShapeDataMismatch { shape, expected, actual } => "shape "@ + list_text(usize_ints(shape@))
            + " expects "@ + decimal_text(expected as nat) + " elements, got "@ + decimal_text(actual as nat),
        NumRsError::ShapeOverflow => "shape size overflow"@,
        NumRsError::InvalidShape(m) => "invalid shape: "@ + m@,
        NumRsError::BroadcastMismatch { left, right } => "cannot broadcast shapes "@ + list_text(usize_ints(left@))
            + " and "@ + list_text(usize_ints(right@)),
        NumRsError::IndexRankMismatch { expected, actual } => "expected "@ + decimal_text(expected as nat)
            + " indices, got "@ + decimal_text(actual as nat),
        NumRsError::IndexOutOfBounds { axis, index, len } => "index "@ + signed_text(index as int)
            + " out of bounds for axis "@ + decimal_text(axis as nat) + " with len "@ + decimal_text(len as nat),
        NumRsError::InvalidSlice(m) => "invalid slice: "@ + m@,
        NumRsError::AxisOutOfBounds { axis, ndim } => "axis "@ + signed_text(axis as int) + " out of bounds for ndim "@
            + decimal_text(ndim as nat),
        NumRsError::DuplicateAxis(a) => "duplicate axis "@ + decimal_text(a as nat),
        NumRsError::NonContiguousReshape { shape, strides } => "cannot zero-copy reshape non-contiguous layout shape="@
            + list_text(usize_ints(shape@)) + ", strides="@ + list_text(isize_ints(strides@)),
        NumRsError::DotShapeMismatch { left, right } => "2-D dot shape mismatch: "@ + list_text(usize_ints(left@))
            + " x "@ + list_text(usize_ints(right@)),
        NumRsError::EmptyReduction => "reduction over an empty array"@,
        NumRsError::CannotSqueezeAxis { axis, len } => "cannot squeeze axis "@ + decimal_text(axis as nat)
            + " with len "@ + decimal_text(len as nat),
        NumRsError::BooleanMaskShapeMismatch { array, mask } => "boolean mask shape "@ + list_text(usize_ints(mask@))
            + " does not match array shape "@ + list_text(usize_ints(array@)),
    }
}

impl NumRsError {
    /// Human-readable description of the error.
    pub fn message(&self) -> (r: String)
        ensures
            r@ == message_text(*self),
    {
        let mut out: Vec<char> = Vec::new();
        match self {
            NumRsError::ShapeDataMismatch { shape, expected, actual } => {
                push_str(&mut out, "shape ");
                push_usize_list(&mut out, shape.as_slice());
                push_str(&mut out, " expects ");
                push_decimal(&mut out, *expected as u128);
                push_str(&mut out, " elements, got ");
                push_decimal(&mut out, *actual as u128);
            },
            NumRsError::ShapeOverflow => push_str(&mut out, "shape size overflow"),
            NumRsError::InvalidShape(m) => {
                push_str(&mut out, "invalid shape: ");
                push_str(&mut out, m.as_str());
            },
            NumRsError::BroadcastMismatch { left, right } => {
                push_str(&mut out, "cannot broadcast shapes ");
                push_usize_list(&mut out, left.as_slice());
                push_str(&mut out, " and ");
                push_usize_list(&mut out, right.as_slice());
            },
            NumRsError::IndexRankMismatch { expected, actual } => {
                push_str(&mut out, "expected ");
                push_decimal(&mut out, *expected as u128);
                push_str(&mut out, " indices, got ");
                push_decimal(&mut out, *actual as u128);
            },
            NumRsError::IndexOutOfBounds { axis, index, len } => {
                push_str(&mut out, "index ");
                push_signed(&mut out, *index as i128);
                push_str(&mut out, " out of bounds for axis ");
                push_decimal(&mut out, *axis as u128);
                push_str(&mut out, " with len ");
                push_decimal(&mut out, *len as u128);
            },
            NumRsError::InvalidSlice(m) => {
                push_str(&mut out, "invalid slice: ");
                push_str(&mut out, m.as_str());
            },
            NumRsError::AxisOutOfBounds { axis, ndim } => {
                push_str(&mut out, "axis ");
                push_signed(&mut out, *axis as i128);
                push_str(&mut out, " out of bounds for ndim ");
                push_decimal(&mut out, *ndim as u128);
            },
            NumRsError::DuplicateAxis(a) => {
                push_str(&mut out, "duplicate axis ");
                push_decimal(&mut out, *a as u128);
            },
            NumRsError::NonContiguousReshape { shape, strides } => {
                push_str(&mut out, "cannot zero-copy reshape non-contiguous layout shape=");
                push_usize_list(&mut out, shape.as_slice());
                push_str(&mut out, ", strides=");
                push_isize_list(&mut out, strides.as_slice());
            },
            NumRsError::DotShapeMismatch { left, right } => {
                push_str(&mut out, "2-D dot shape mismatch: ");
                push_usize_list(&mut out, left.as_slice());
                push_str(&mut out, " x ");
                push_usize_list(&mut out, right.as_slice());
            },
            NumRsError::EmptyReduction => push_str(&mut out, "reduction over an empty array"),
            NumRsError::CannotSqueezeAxis { axis, len } => {
                push_str(&mut out, "cannot squeeze axis ");
                push_decimal(&mut out, *axis as u128);
                push_str(&mut out, " with len ");
                push_decimal(&mut out, *len as u128);
            },
            NumRsError::BooleanMaskShapeMismatch { array, mask } => {
                push_str(&mut out, "boolean mask shape ");
                push_usize_list(&mut out, mask.as_slice());
                push_str(&mut out, " does not match array shape ");
                push_usize_list(&mut out, array.as_slice());
            },
        }
        proof {
            assert(out@ =~= message_text(*self));
        }
        string_from_chars(&out)
    }
}

} // verus!
