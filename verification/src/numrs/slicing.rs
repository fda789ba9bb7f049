use vstd::prelude::*;
use crate::numrs::indexing::{
    NormalizedSlice, Slice, normalized_spec, range_end, range_len, range_start, slice_ok, slice_step_ok, wrap_negative,
    index_in_axis, clamp_int, zero_step_error,
};
use crate::numrs::error::NumRsError;
use crate::numrs::layout::{dot, dot_upto, in_bounds, offsets_within};
use crate::numrs::shape::{shape_size, size_fits, lemma_shape_size_nonneg};

verus! {

/// The slice entry applied to axis `a`: missing trailing entries select the whole axis.
pub open spec fn eff_slice(slices: Seq<Slice>, a: int) -> Slice {
    if 0 <= a < slices.len() {
        slices[a]
    } else {
        Slice::All
    }
}

/// Every entry resolves against its axis.
pub open spec fn slices_ok(slices: Seq<Slice>, shape: Seq<usize>) -> bool {
    &&& slices.len() <= shape.len()
    &&& forall|a: int| 0 <= a < shape.len() ==> #[trigger] slice_ok(eff_slice(slices, a), shape[a] as int)
}

pub open spec fn slices_steps_ok(slices: Seq<Slice>) -> bool {
    forall|k: int| 0 <= k < slices.len() ==> #[trigger] slice_step_ok(slices[k])
}

/// The layout produced by the first `a` axes of a slicing request: the kept
/// dimensions, their strides and the accumulated offset shift.
pub open spec fn slice_out(slices: Seq<Slice>, shape: Seq<usize>, strides: Seq<isize>, a: int) -> (Seq<usize>, Seq<
    int,
>, int)
    decreases a,
{
    if a <= 0 {
        (Seq::<usize>::empty(), Seq::<int>::empty(), 0)
    } else {
        let prev = slice_out(slices, shape, strides, a - 1);
        match normalized_spec(eff_slice(slices, a - 1), shape[a - 1] as int) {
            NormalizedSlice::Index(i) => (prev.0, prev.1, prev.2 + i * strides[a - 1]),
            NormalizedSlice::Range { start, len, step } => (
                prev.0.push(len),
                prev.1.push(strides[a - 1] * step),
                prev.2 + start * strides[a - 1],
            ),
        }
    }
}

/// All the running offsets and new strides of the first `a` axes fit in `isize`.
pub open spec fn slice_fits(slices: Seq<Slice>, shape: Seq<usize>, strides: Seq<isize>, offset: int, a: int) -> bool
    decreases a,
{
    if a <= 0 {
        true
    } else {
        &&& slice_fits(slices, shape, strides, offset, a - 1)
        &&& isize::MIN <= offset + slice_out(slices, shape, strides, a).2 <= isize::MAX
        &&& match normalized_spec(eff_slice(slices, a - 1), shape[a - 1] as int) {
            NormalizedSlice::Index(i) => isize::MIN <= i * strides[a - 1] <= isize::MAX,
            NormalizedSlice::Range { start, step, .. } => isize::MIN <= start * strides[a - 1] <= isize::MAX
                && isize::MIN <= strides[a - 1] * step <= isize::MAX,
        }
    }
}

/// The slicing scan passes the first `a` axes and stops at axis `a`: its
/// entry does not resolve, or an offset or a stride there leaves `isize`.
pub open spec fn slice_stops_at(slices: Seq<Slice>, shape: Seq<usize>, strides: Seq<isize>, offset: int, a: int) -> bool {
    &&& 0 <= a < shape.len()
    &&& forall|k: int| 0 <= k < a ==> #[trigger] slice_ok(eff_slice(slices, k), shape[k] as int)
    &&& slice_fits(slices, shape, strides, offset, a)
    &&& (!slice_ok(eff_slice(slices, a), shape[a] as int) || !slice_fits(slices, shape, strides, offset, a + 1))
}

/// The error reported where the scan stops at axis `axis` of length `dim`
/// with entry `slice`: that of the entry when it does not resolve, else an
/// overflow.
pub open spec fn slice_axis_error(slice: Slice, axis: int, dim: int, e: NumRsError) -> bool {
    if !slice_ok(slice, dim) {
        match slice {
            Slice::Index(i) => e == (NumRsError::IndexOutOfBounds { axis: axis as usize, index: i, len: dim as usize }),
            _ => zero_step_error(e),
        }
    } else {
        e == NumRsError::ShapeOverflow
    }
}

pub open spec fn to_isizes(s: Seq<int>) -> Seq<isize> {
    Seq::new(s.len(), |k: int| s[k] as isize)
}

/// The source multi-index read by multi-index `out` of the sliced layout.
pub open spec fn slice_source_index(slices: Seq<Slice>, shape: Seq<usize>, strides: Seq<isize>, out: Seq<int>) -> Seq<
    int,
> {
    Seq::new(
        shape.len(),
        |k: int|
            match normalized_spec(eff_slice(slices, k), shape[k] as int) {
                NormalizedSlice::Index(i) => i as int,
                NormalizedSlice::Range { start, step, .. } => start + out[slice_out(
                    slices,
                    shape,
                    strides,
                    k,
                ).0.len() as int] * step,
            },
    )
}

pub proof fn lemma_slice_out_lens(slices: Seq<Slice>, shape: Seq<usize>, strides: Seq<isize>, a: int)
    ensures
        slice_out(slices, shape, strides, a).0.len() == slice_out(slices, shape, strides, a).1.len(),
        a >= 0 ==> slice_out(slices, shape, strides, a).0.len() <= a,
    decreases a,
{
    if a > 0 {
        lemma_slice_out_lens(slices, shape, strides, a - 1);
    }
}

proof fn lemma_slice_out_prefix(slices: Seq<Slice>, shape: Seq<usize>, strides: Seq<isize>, a: int, b: int)
    requires
        0 <= a <= b,
    ensures
        slice_out(slices, shape, strides, a).0.len() <= slice_out(slices, shape, strides, b).0.len(),
        forall|k: int|
            0 <= k < slice_out(slices, shape, strides, a).0.len() ==> #[trigger] slice_out(slices, shape, strides, b).0[k]
                == slice_out(slices, shape, strides, a).0[k] && slice_out(slices, shape, strides, b).1[k]
                == slice_out(slices, shape, strides, a).1[k],
    decreases b,
{
    lemma_slice_out_lens(slices, shape, strides, a);
    lemma_slice_out_lens(slices, shape, strides, b);
    if b > a {
        lemma_slice_out_prefix(slices, shape, strides, a, b - 1);
        lemma_slice_out_lens(slices, shape, strides, b - 1);
    }
}

/// Positions visited by a resolved range stay inside the axis.
pub proof fn lemma_range_positions(start: Option<isize>, end: Option<isize>, step: isize, dim: int, j: int)
    requires
        dim >= 0,
        step != 0,
        0 <= j < range_len(start, end, step, dim),
    ensures
        0 <= range_start(start, step, dim) + j * step < dim,
{
    let s = range_start(start, step, dim);
    let e = range_end(end, step, dim);
    if step > 0 {
        let q = (e - s - 1) / (step as int);
        assert(q * step <= e - s - 1) by (nonlinear_arith)
            requires
                q == (e - s - 1) / (step as int),
                step > 0,
                e - s - 1 >= 0,
        ;
        assert(0 <= j * step <= q * step) by (nonlinear_arith)
            requires
                0 <= j <= q,
                step > 0,
        ;
    } else {
        let st = -step;
        let q = (s - e - 1) / st;
        assert(q * st <= s - e - 1) by (nonlinear_arith)
            requires
                q == (s - e - 1) / st,
                st > 0,
                s - e - 1 >= 0,
        ;
        assert(0 <= j * st <= q * st) by (nonlinear_arith)
            requires
                0 <= j <= q,
                st > 0,
        ;
        assert(j * step == -(j * st)) by (nonlinear_arith)
            requires
                st == -step,
        ;
    }
}

/// Resolved ranges never visit more positions than the axis has.
pub proof fn lemma_range_len_bound(start: Option<isize>, end: Option<isize>, step: isize, dim: int)
    requires
        dim >= 0,
        step != 0,
    ensures
        0 <= range_len(start, end, step, dim) <= dim,
{
    let s = range_start(start, step, dim);
    let e = range_end(end, step, dim);
    if step > 0 {
        if s < e {
            let q = (e - s - 1) / (step as int);
            assert(0 <= q <= e - s - 1) by (nonlinear_arith)
                requires
                    q == (e - s - 1) / (step as int),
                    step >= 1,
                    e - s - 1 >= 0,
            ;
        }
    } else {
        if e < s {
            let st = -step;
            let q = (s - e - 1) / st;
            assert(0 <= q <= s - e - 1) by (nonlinear_arith)
                requires
                    q == (s - e - 1) / st,
                    st >= 1,
                    s - e - 1 >= 0,
            ;
        }
    }
}

/// Reading the sliced layout at `out` reads the source layout at its source index.
pub proof fn lemma_slice_dot_upto(
    slices: Seq<Slice>,
    shape: Seq<usize>,
    strides: Seq<isize>,
    offset: int,
    out: Seq<int>,
    a: int,
)
    requires
        0 <= a <= shape.len(),
        shape.len() == strides.len(),
        forall|k: int| 0 <= k < shape.len() ==> #[trigger] shape[k] <= isize::MAX,
        slices_ok(slices, shape),
        slice_fits(slices, shape, strides, offset, shape.len() as int),
        in_bounds(out, slice_out(slices, shape, strides, shape.len() as int).0),
    ensures
        dot_upto(slice_source_index(slices, shape, strides, out), strides, a) == slice_out(slices, shape, strides, a).2
            + dot_upto(
            out,
            to_isizes(slice_out(slices, shape, strides, shape.len() as int).1),
            slice_out(slices, shape, strides, a).0.len() as int,
        ),
        forall|k: int| 0 <= k < a ==> 0 <= #[trigger] slice_source_index(slices, shape, strides, out)[k] < shape[k],
    decreases a,
{
    let n = shape.len() as int;
    let fin = slice_out(slices, shape, strides, n);
    let src = slice_source_index(slices, shape, strides, out);
    if a > 0 {
        lemma_slice_dot_upto(slices, shape, strides, offset, out, a - 1);
        lemma_slice_out_prefix(slices, shape, strides, a, n);
        lemma_slice_out_lens(slices, shape, strides, a - 1);
        lemma_slice_out_lens(slices, shape, strides, a);
        lemma_slice_fits_prefix(slices, shape, strides, offset, a, n);
        let prev = slice_out(slices, shape, strides, a - 1);
        let sl = eff_slice(slices, a - 1);
        let dim = shape[a - 1] as int;
        assert(slice_ok(sl, dim));
        match normalized_spec(sl, dim) {
            NormalizedSlice::Index(i) => {
                assert(src[a - 1] == i);
                match sl {
                    Slice::Index(ii) => {
                        assert(index_in_axis(ii, dim));
                    },
                    _ => {},
                }
                assert(0 <= src[a - 1] < shape[a - 1]);
            },
            NormalizedSlice::Range { start, len, step } => {
                let c = prev.0.len() as int;
                let cur = slice_out(slices, shape, strides, a);
                lemma_slice_out_lens(slices, shape, strides, n);
                assert(cur.0.len() == c + 1);
                assert(fin.0[c] == cur.0[c]);
                assert(fin.1[c] == cur.1[c]);
                assert(cur.1[c] == strides[a - 1] * step);
                assert(isize::MIN <= strides[a - 1] * step <= isize::MAX);
                assert(fin.0[c] == len);
                assert(0 <= out[c] < len);
                assert(src[a - 1] == start + out[c] * step);
                assert(to_isizes(fin.1)[c] == strides[a - 1] * step);
                match sl {
                    Slice::All => {
                        assert(0 <= out[c] < dim);
                    },
                    Slice::Range { start: s0, end: e0, step: st0 } => {
                        lemma_range_positions(s0, e0, st0, dim, out[c]);
                        lemma_range_len_bound(s0, e0, st0, dim);
                        assert(-1 <= range_start(s0, st0, dim) <= dim);
                        assert(start == range_start(s0, st0, dim));
                        assert(len == range_len(s0, e0, st0, dim));
                    },
                    Slice::Index(_) => {},
                }
                assert(0 <= src[a - 1] < shape[a - 1]);
                assert(out[c] * (strides[a - 1] * step) == (start + out[c] * step) * strides[a - 1] - start
                    * strides[a - 1]) by (nonlinear_arith);
            },
        }
    }
}

pub proof fn lemma_slice_fits_prefix(
    slices: Seq<Slice>,
    shape: Seq<usize>,
    strides: Seq<isize>,
    offset: int,
    a: int,
    b: int,
)
    requires
        0 < a <= b,
        slice_fits(slices, shape, strides, offset, b),
    ensures
        slice_fits(slices, shape, strides, offset, a),
    decreases b,
{
    if b > a {
        lemma_slice_fits_prefix(slices, shape, strides, offset, a, b - 1);
    }
}

/// A slice of a well-formed layout stays inside the same buffer, and every
/// element it addresses is the source element at the source index.
pub proof fn lemma_slice_offsets_within(
    slices: Seq<Slice>,
    shape: Seq<usize>,
    strides: Seq<isize>,
    offset: int,
    len: int,
)
    requires
        shape.len() == strides.len(),
        forall|k: int| 0 <= k < shape.len() ==> #[trigger] shape[k] <= isize::MAX,
        slices_ok(slices, shape),
        slice_fits(slices, shape, strides, offset, shape.len() as int),
        offsets_within(shape, strides, offset, len),
    ensures
        offsets_within(
            slice_out(slices, shape, strides, shape.len() as int).0,
            to_isizes(slice_out(slices, shape, strides, shape.len() as int).1),
            offset + slice_out(slices, shape, strides, shape.len() as int).2,
            len,
        ),
        forall|out: Seq<int>|
            #[trigger] in_bounds(out, slice_out(slices, shape, strides, shape.len() as int).0) ==> in_bounds(
                slice_source_index(slices, shape, strides, out),
                shape,
            ) && offset + dot(slice_source_index(slices, shape, strides, out), strides) == offset + slice_out(
                slices,
                shape,
                strides,
                shape.len() as int,
            ).2 + dot(out, to_isizes(slice_out(slices, shape, strides, shape.len() as int).1)),
{
    let n = shape.len() as int;
    let fin = slice_out(slices, shape, strides, n);
    assert forall|out: Seq<int>| #[trigger] in_bounds(out, fin.0) implies in_bounds(
        slice_source_index(slices, shape, strides, out),
        shape,
    ) && offset + dot(slice_source_index(slices, shape, strides, out), strides) == offset + fin.2 + dot(
        out,
        to_isizes(fin.1),
    ) by {
        lemma_slice_dot_upto(slices, shape, strides, offset, out, n);
        lemma_slice_out_lens(slices, shape, strides, n);
    }
}

/// The sliced shape's sizes stay within those of the source.
pub proof fn lemma_slice_size(slices: Seq<Slice>, shape: Seq<usize>, strides: Seq<isize>, a: int)
    requires
        0 <= a <= shape.len(),
        slices_ok(slices, shape),
    ensures
        0 <= shape_size(slice_out(slices, shape, strides, a).0) <= shape_size(shape.take(a)),
        size_fits(shape.take(a)) ==> size_fits(slice_out(slices, shape, strides, a).0),
        forall|k: int|
            0 <= k < slice_out(slices, shape, strides, a).0.len() ==> #[trigger] slice_out(slices, shape, strides, a).0[k]
                <= isize::MAX || exists|j: int| 0 <= j < a && shape[j] > isize::MAX,
    decreases a,
{
    if a > 0 {
        lemma_slice_size(slices, shape, strides, a - 1);
        let prev = slice_out(slices, shape, strides, a - 1);
        let cur = slice_out(slices, shape, strides, a);
        let dim = shape[a - 1] as int;
        let pt = shape.take(a - 1);
        assert(shape.take(a).drop_last() =~= pt);
        lemma_shape_size_nonneg(pt);
        lemma_shape_size_nonneg(prev.0);
        let sl = eff_slice(slices, a - 1);
        assert(slice_ok(sl, dim));
        match normalized_spec(sl, dim) {
            NormalizedSlice::Index(i) => {
                match sl {
                    Slice::Index(ii) => {
                        assert(index_in_axis(ii, dim));
                    },
                    _ => {},
                }
                assert(dim >= 1);
                assert(shape_size(pt) <= shape_size(pt) * dim) by (nonlinear_arith)
                    requires
                        dim >= 1,
                        shape_size(pt) >= 0,
                ;
                if size_fits(shape.take(a)) {
                    assert(size_fits(pt));
                }
            },
            NormalizedSlice::Range { start, len, step } => {
                let l = len as int;
                assert(0 <= l <= dim) by {
                    match sl {
                        Slice::Range { start: s0, end: e0, step: st0 } => {
                            lemma_range_len_bound(s0, e0, st0, dim);
                        },
                        _ => {},
                    }
                }
                assert(cur.0.drop_last() =~= prev.0);
                assert(shape_size(prev.0) * l <= shape_size(pt) * dim) by (nonlinear_arith)
                    requires
                        0 <= shape_size(prev.0) <= shape_size(pt),
                        0 <= l <= dim,
                ;
                assert(0 <= shape_size(prev.0) * l) by (nonlinear_arith)
                    requires
                        0 <= shape_size(prev.0),
                        0 <= l,
                ;
                if size_fits(shape.take(a)) {
                    assert(size_fits(pt));
                }
                assert forall|k: int| 0 <= k < cur.0.len() implies #[trigger] cur.0[k] <= isize::MAX || exists|j: int|
                    0 <= j < a && shape[j] > isize::MAX by {
                    if k < prev.0.len() {
                        assert(cur.0[k] == prev.0[k]);
                        if !(prev.0[k] <= isize::MAX) {
                            let j = choose|j: int| 0 <= j < a - 1 && shape[j] > isize::MAX;
                            assert(0 <= j < a && shape[j] > isize::MAX);
                        }
                    } else {
                        assert(cur.0[k] == l);
                        if l > isize::MAX {
                            assert(shape[a - 1] > isize::MAX);
                        }
                    }
                }
            },
        }
    }
}


pub proof fn lemma_slice_out_len_bound(slices: Seq<Slice>, shape: Seq<usize>, strides: Seq<isize>, a: int)
    requires
        a >= 0,
    ensures
        slice_out(slices, shape, strides, a).0.len() <= a,
        slice_out(slices, shape, strides, a).1.len() == slice_out(slices, shape, strides, a).0.len(),
{
    lemma_slice_out_lens(slices, shape, strides, a);
}


/// The slicing request equivalent to squeezing: index 0 on the selected axis
/// (or on every length-1 axis when none is selected), whole axes elsewhere.
pub open spec fn squeeze_slices(shape: Seq<usize>, sel: Option<usize>) -> Seq<Slice> {
    Seq::new(
        shape.len(),
        |k: int|
            if (match sel {
                Some(a) => k == a,
                None => shape[k] == 1,
            }) {
                Slice::Index(0)
            } else {
                Slice::All
            },
    )
}

} // verus!
