use vstd::prelude::*;
use crate::numrs::error::NumRsError;

verus! {

/// One entry of a slicing request: a whole axis, a single (possibly negative)
/// index that drops the axis, or a stepped range with optional bounds.
#[derive(Debug, Clone, Copy, PartialEq, Eq)]
pub enum Slice {
    All,
    Index(isize),
    Range { start: Option<isize>, end: Option<isize>, step: isize },
}

impl Slice {
    /// The stepped range `start..end` with the given step.
    pub fn range(start: Option<isize>, end: Option<isize>, step: isize) -> (r: Self)
        ensures
            r == (Slice::Range { start, end, step }),
    {
        Slice::Range { start, end, step }
    }
}

/// A slice entry resolved against one axis: a concrete index, or a range given
/// by its first position, its number of elements and its step.
#[derive(Debug, Clone, Copy, PartialEq, Eq)]
pub enum NormalizedSlice {
    Index(isize),
    Range { start: isize, len: usize, step: isize },
}

pub open spec fn clamp_int(v: int, lo: int, hi: int) -> int {
    if v < lo {
        lo
    } else if v > hi {
        hi
    } else {
        v
    }
}

/// A negative position counts from the end of the axis.
pub open spec fn wrap_negative(v: int, dim: int) -> int {
    if v < 0 {
        v + dim
    } else {
        v
    }
}

/// Resolved first position of a range over an axis of length `dim`.
pub open spec fn range_start(start: Option<isize>, step: isize, dim: int) -> int {
    if step > 0 {
        clamp_int(
            wrap_negative(
                match start {
                    Some(v) => v as int,
                    None => 0,
                },
                dim,
            ),
            0,
            dim,
        )
    } else {
        match start {
            None => dim - 1,
            Some(v) => clamp_int(wrap_negative(v as int, dim), -1, dim - 1),
        }
    }
}

/// Resolved exclusive end of a range over an axis of length `dim`.
pub open spec fn range_end(end: Option<isize>, step: isize, dim: int) -> int {
    if step > 0 {
        clamp_int(
            wrap_negative(
                match end {
                    Some(v) => v as int,
                    None => dim,
                },
                dim,
            ),
            0,
            dim,
        )
    } else {
        match end {
            None => -1,
            Some(v) => clamp_int(wrap_negative(v as int, dim), -1, dim - 1),
        }
    }
}

/// Number of positions the range visits.
pub open spec fn range_len(start: Option<isize>, end: Option<isize>, step: isize, dim: int) -> int {
    let s = range_start(start, step, dim);
    let e = range_end(end, step, dim);
    if step > 0 {
        if s >= e {
            0
        } else {
            (e - s - 1) / (step as int) + 1
        }
    } else {
        if e >= s {
            0
        } else {
            (s - e - 1) / (-step) + 1
        }
    }
}

fn clamp_isize(v: isize, lo: isize, hi: isize) -> (r: isize)
    requires
        lo <= hi,
    ensures
        r == clamp_int(v as int, lo as int, hi as int),
{
    if v < lo {
        lo
    } else if v > hi {
        hi
    } else {
        v
    }
}

fn normalize_positive_bound(value: isize, dim_len: isize) -> (r: isize)
    requires
        dim_len >= 0,
    ensures
        r == clamp_int(wrap_negative(value as int, dim_len as int), 0, dim_len as int),
{
    let adjusted = if value < 0 { value + dim_len } else { value };
    clamp_isize(adjusted, 0, dim_len)
}

fn normalize_negative_bound(value: Option<isize>, dim_len: isize, missing: isize) -> (r: isize)
    requires
        dim_len >= 0,
    ensures
        r == match value {
            None => missing as int,
            Some(v) => clamp_int(wrap_negative(v as int, dim_len as int), -1, dim_len - 1),
        },
{
    match value {
        None => missing,
        Some(raw) => {
            let adjusted = if raw < 0 { raw + dim_len } else { raw };
            clamp_isize(adjusted, -1, dim_len - 1)
        },
    }
}

/// `e` is the error for a zero slice step.
pub open spec fn zero_step_error(e: NumRsError) -> bool {
    e matches NumRsError::InvalidSlice(m) && m@ == "slice step cannot be zero"@
}

/// Resolve a stepped range against an axis of length `dim_len`, following
/// the usual slice rules for negative and out-of-range bounds; a zero step is an error.
pub fn normalize_range(start: Option<isize>, end: Option<isize>, step: isize, dim_len: usize) -> (r:
    Result<NormalizedSlice, NumRsError>)
    requires
        dim_len <= isize::MAX,
        step != isize::MIN,
    ensures
        match r {
            Ok(ns) => step != 0 && ns == (NormalizedSlice::Range {
                start: range_start(start, step, dim_len as int) as isize,
                len: range_len(start, end, step, dim_len as int) as usize,
                step,
            }),
            Err(e) => step == 0 && zero_step_error(e),
        },
{
    if step == 0 {
        return Err(NumRsError::InvalidSlice("slice step cannot be zero".to_string()));
    }
    let dim = dim_len as isize;
    if step > 0 {
        let s = normalize_positive_bound(match start { Some(v) => v, None => 0 }, dim);
        let e = normalize_positive_bound(match end { Some(v) => v, None => dim }, dim);
        let len: usize = if s >= e { 0 } else { ((e - s - 1) as usize) / (step as usize) + 1 };
        Ok(NormalizedSlice::Range { start: s, len, step })
    } else {
        let s = normalize_negative_bound(start, dim, dim - 1);
        let e = normalize_negative_bound(end, dim, -1);
        let step_abs = -step;
        let len: usize = if e >= s { 0 } else { ((s - e - 1) as usize) / (step_abs as usize) + 1 };
        Ok(NormalizedSlice::Range { start: s, len, step })
    }
}

/// A single index, counted from the end when negative, must land inside the axis.
pub open spec fn index_in_axis(index: isize, dim: int) -> bool {
    0 <= wrap_negative(index as int, dim) < dim
}

fn normalize_index(index: isize, axis: usize, dim_len: usize) -> (r: Result<isize, NumRsError>)
    requires
        dim_len <= isize::MAX,
    ensures
        match r {
            Ok(i) => index_in_axis(index, dim_len as int) && i == wrap_negative(index as int, dim_len as int),
            Err(e) => !index_in_axis(index, dim_len as int) && e == (NumRsError::IndexOutOfBounds {
                axis,
                index,
                len: dim_len,
            }),
        },
{
    let normalized = if index < 0 { dim_len as isize + index } else { index };
    if normalized < 0 || normalized >= dim_len as isize {
        return Err(NumRsError::IndexOutOfBounds { axis, index, len: dim_len });
    }
    Ok(normalized)
}

/// What a slice entry resolves to on an axis of length `dim`, when it resolves.
pub open spec fn slice_ok(slice: Slice, dim: int) -> bool {
    match slice {
        Slice::All => true,
        Slice::Index(i) => index_in_axis(i, dim),
        Slice::Range { step, .. } => step != 0,
    }
}

pub open spec fn normalized_spec(slice: Slice, dim: int) -> NormalizedSlice {
    match slice {
        Slice::All => NormalizedSlice::Range { start: 0, len: dim as usize, step: 1 },
        Slice::Index(i) => NormalizedSlice::Index(wrap_negative(i as int, dim) as isize),
        Slice::Range { start, end, step } => NormalizedSlice::Range {
            start: range_start(start, step, dim) as isize,
            len: range_len(start, end, step, dim) as usize,
            step,
        },
    }
}

/// A range step of `isize::MIN` cannot be negated.
pub open spec fn slice_step_ok(slice: Slice) -> bool {
    match slice {
        Slice::Range { step, .. } => step != isize::MIN,
        _ => true,
    }
}

/// Resolve one slice entry against axis `axis` of length `dim_len`.
pub fn normalize_slice(slice: Slice, axis: usize, dim_len: usize) -> (r: Result<NormalizedSlice, NumRsError>)
    requires
        dim_len <= isize::MAX,
        slice_step_ok(slice),
    ensures
        match r {
            Ok(ns) => slice_ok(slice, dim_len as int) && ns == normalized_spec(slice, dim_len as int),
            Err(e) => !slice_ok(slice, dim_len as int) && match slice {
                Slice::Index(i) => e == (NumRsError::IndexOutOfBounds { axis, index: i, len: dim_len }),
                _ => zero_step_error(e),
            },
        },
{
    match slice {
        Slice::All => Ok(NormalizedSlice::Range { start: 0, len: dim_len, step: 1 }),
        Slice::Index(index) => {
            let normalized = normalize_index(index, axis, dim_len)?;
            Ok(NormalizedSlice::Index(normalized))
        },
        Slice::Range { start, end, step } => normalize_range(start, end, step, dim_len),
    }
}

} // verus!
