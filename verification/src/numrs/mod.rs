//! Typed n-dimensional arrays: shape and stride layout metadata, zero-copy
//! views, NumPy-style slicing, reshape, transpose, broadcasting, elementwise
//! kernels, reductions and matrix products over integer and boolean elements.
pub mod error;
pub mod shape;
pub mod indexing;
pub mod layout;
pub mod slicing;
pub mod array;
pub mod dtype;
pub mod element;
pub mod ops;
pub mod contract;
pub mod reduce;
pub mod select;
pub mod update;
pub mod array_ops;

pub use array::{Array, ArrayView};
pub use dtype::{promote_dtype, CastElement, DType, DTypeKind};
pub use error::NumRsError;
pub use indexing::{normalize_range, NormalizedSlice, Slice};
pub use shape::{broadcast_shape, c_strides, resolve_shape, size_of_shape};
