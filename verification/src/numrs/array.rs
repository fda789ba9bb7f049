use vstd::prelude::*;
use crate::numrs::error::NumRsError;
use crate::numrs::layout::{
    dot, in_bounds, is_c_contiguous, c_contiguous_spec, layout_ok, lemma_c_layout, lemma_c_layout_elems,
    lemma_positive_size_dims, linear_offset, offset_for_index, offsets_within, to_ints, unravel, view_elems,
    first_bad_axis, is_axis_permutation, permute_seq, unpermute_index, lemma_permute_dot, lemma_permute_offsets_within,
    permute_unique_axes, permute_error, broadcasts_to, broadcast_strides, broadcast_strides_spec, broadcast_source_index,
    lemma_broadcast_dot, lemma_broadcast_offsets_within, lemma_dot_insert, lemma_size_insert_one, lemma_unravel_insert,
    reversed_axes, unravel_index,
};
use crate::numrs::shape::{
    c_strides, c_strides_spec, known_product, normalize_axis, normalize_insert_axis, resolvable, resolve_error, resolve_shape, resolved_shape, invalid_shape_with, size_mismatch_error, size_mismatch_text, shape_size,
    size_fits, size_of_shape, lemma_shape_size_nonneg, fits_or_empty, fits_or_empty_exec,
};
use crate::numrs::indexing::{NormalizedSlice, Slice, normalize_slice, normalized_spec, slice_ok, slice_step_ok, wrap_negative};
use crate::numrs::slicing::{
    eff_slice, slice_axis_error, slice_stops_at, squeeze_slices, lemma_slice_offsets_within, lemma_slice_size, slice_fits, slice_out, slice_source_index, slices_ok,
    slices_steps_ok, to_isizes,
};

verus! {

/// An owned n-dimensional array stored in row-major order.
#[derive(Debug, Clone)]
pub struct Array<T> {
    data: Vec<T>,
    shape: Vec<usize>,
    strides: Vec<isize>,
    uniform: Option<T>,
}

/// A borrowed, strided window onto the buffer of an array; no elements are copied.
#[derive(Debug, Clone)]
pub struct ArrayView<'a, T> {
    data: &'a [T],
    shape: Vec<usize>,
    strides: Vec<isize>,
    offset: isize,
}

/// The layout conditions every array shape meets: the rank and every
/// dimension fit in `isize`, and the running products of the dimensions fit
/// in `usize` unless the shape holds no element.
pub open spec fn shape_ok(shape: Seq<usize>) -> bool {
    &&& shape.len() < isize::MAX
    &&& fits_or_empty(shape)
    &&& forall|k: int| 0 <= k < shape.len() ==> #[trigger] shape[k] <= isize::MAX
}

/// Whether two shapes are equal.
pub(crate) fn usize_slices_eq(a: &[usize], b: &[usize]) -> (r: bool)
    ensures
        r == (a@ == b@),
{
    if a.len() != b.len() {
        return false;
    }
    let mut i: usize = 0;
    while i < a.len()
        invariant
            i <= a@.len(),
            a@.len() == b@.len(),
            forall|k: int| 0 <= k < i ==> a@[k] == b@[k],
        decreases a@.len() - i,
    {
        if a[i] != b[i] {
            return false;
        }
        i += 1;
    }
    assert(a@ =~= b@);
    true
}

/// A copy of a shape.
pub(crate) fn copy_usizes(s: &[usize]) -> (r: Vec<usize>)
    ensures
        r@ == s@,
{
    vstd::slice::slice_to_vec(s)
}

/// A copy of a stride list.
pub(crate) fn copy_isizes(s: &[isize]) -> (r: Vec<isize>)
    ensures
        r@ == s@,
{
    vstd::slice::slice_to_vec(s)
}

impl<T> Array<T> {
    /// The elements, in row-major order.
    pub closed spec fn elems(&self) -> Seq<T> {
        self.data@
    }

    pub closed spec fn shape_spec(&self) -> Seq<usize> {
        self.shape@
    }

    pub closed spec fn strides_spec(&self) -> Seq<isize> {
        self.strides@
    }

    /// The value every element is known to share, when the array was filled with one.
    pub closed spec fn uniform_spec(&self) -> Option<T> {
        self.uniform
    }

    pub open spec fn wf(&self) -> bool {
        &&& shape_ok(self.shape_spec())
        &&& shape_size(self.shape_spec()) == self.elems().len()
        &&& self.elems().len() <= isize::MAX
        &&& self.strides_spec() == c_strides_spec(self.shape_spec())
        &&& (self.uniform_spec() matches Some(v) ==> forall|i: int|
            0 <= i < self.elems().len() ==> #[trigger] self.elems()[i] == v)
    }

    /// Wrap `data` in row-major order as an array of shape `shape`; the
    /// number of elements must be the product of the dimensions.
    pub fn from_vec(shape: Vec<usize>, data: Vec<T>) -> (r: Result<Self, NumRsError>)
        requires
            shape@.len() < isize::MAX,
            forall|k: int| 0 <= k < shape@.len() ==> #[trigger] shape@[k] <= isize::MAX,
            data@.len() <= isize::MAX,
        ensures
            match r {
                Ok(a) => a.wf() && a.shape_spec() == shape@ && a.elems() == data@ && a.uniform_spec() is None,
                Err(e) => if !size_fits(shape@) {
                    e == NumRsError::ShapeOverflow
                } else {
                    shape_size(shape@) != data@.len() && (e matches NumRsError::ShapeDataMismatch {
                        shape: s,
                        expected,
                        actual,
                    } && s@ == shape@ && expected == shape_size(shape@) && actual == data@.len())
                },
            },
    {
        let expected = size_of_shape(&shape)?;
        if expected != data.len() {
            return Err(NumRsError::ShapeDataMismatch { shape, expected, actual: data.len() });
        }
        let strides = c_strides(&shape);
        Ok(Array { data, shape, strides, uniform: None })
    }

    /// Like `from_vec`, for callers that already know the sizes agree.
    pub(crate) fn from_vec_trusted(shape: Vec<usize>, data: Vec<T>) -> (r: Self)
        requires
            shape_ok(shape@),
            shape_size(shape@) == data@.len(),
            data@.len() <= isize::MAX,
        ensures
            r.wf(),
            r.shape_spec() == shape@,
            r.elems() == data@,
            r.uniform_spec() is None,
    {
        let strides = c_strides(&shape);
        Array { data, shape, strides, uniform: None }
    }

    /// A zero-dimensional array holding one value.
    pub fn scalar(value: T) -> (r: Result<Self, NumRsError>)
        ensures
            r matches Ok(a) && a.wf() && a.shape_spec() == Seq::<usize>::empty() && a.elems() == seq![value],
    {
        let mut data: Vec<T> = Vec::new();
        data.push(value);
        let r = Self::from_vec(Vec::new(), data);
        proof {
            assert(size_fits(Seq::<usize>::empty()));
            assert(shape_size(Seq::<usize>::empty()) == 1);
        }
        r
    }

    pub fn shape(&self) -> (r: &[usize])
        ensures
            r@ == self.shape_spec(),
    {
        self.shape.as_slice()
    }

    pub fn strides(&self) -> (r: &[isize])
        ensures
            r@ == self.strides_spec(),
    {
        self.strides.as_slice()
    }

    pub fn ndim(&self) -> (r: usize)
        ensures
            r == self.shape_spec().len(),
    {
        self.shape.len()
    }

    pub fn len(&self) -> (r: usize)
        ensures
            r == self.elems().len(),
    {
        self.data.len()
    }

    pub fn is_empty(&self) -> (r: bool)
        ensures
            r == (self.elems().len() == 0),
    {
        self.data.len() == 0
    }

    /// The elements in row-major order.
    pub fn as_slice(&self) -> (r: &[T])
        ensures
            r@ == self.elems(),
    {
        self.data.as_slice()
    }

    pub fn into_vec(self) -> (r: Vec<T>)
        ensures
            r@ == self.elems(),
    {
        self.data
    }

    /// Overwrite the element at row-major position `i`; the array no longer
    /// records a value shared by all elements.
    pub(crate) fn set_elem(&mut self, i: usize, v: T)
        requires
            old(self).wf(),
            i < old(self).elems().len(),
        ensures
            final(self).wf(),
            final(self).elems() == old(self).elems().update(i as int, v),
            final(self).shape_spec() == old(self).shape_spec(),
            final(self).uniform_spec() is None,
    {
        self.uniform = None;
        self.data.set(i, v);
    }

    /// Stop recording a value shared by all elements.
    pub(crate) fn forget_uniform(&mut self)
        requires
            old(self).wf(),
        ensures
            final(self).wf(),
            final(self).elems() == old(self).elems(),
            final(self).shape_spec() == old(self).shape_spec(),
            final(self).uniform_spec() is None,
    {
        self.uniform = None;
    }

    pub(crate) fn has_uniform_storage(&self) -> (r: bool)
        ensures
            r == self.uniform_spec() is Some,
    {
        self.uniform.is_some()
    }

    /// A view of the whole array.
    pub fn view(&self) -> (r: ArrayView<'_, T>)
        requires
            self.wf(),
        ensures
            r.wf(),
            r.shape_spec() == self.shape_spec(),
            r.strides_spec() == self.strides_spec(),
            r.offset_spec() == 0,
            r.data_spec() == self.elems(),
            r.elems() == self.elems(),
    {
        proof {
            lemma_c_layout(self.shape@);
            lemma_c_layout_elems(self.data@, self.shape@);
        }
        ArrayView { data: self.data.as_slice(), shape: copy_usizes(&self.shape), strides: copy_isizes(&self.strides), offset: 0 }
    }
}

impl<T: Copy> Array<T> {
    /// The value every element is known to share, if the array records one.
    pub(crate) fn uniform_value(&self) -> (r: Option<T>)
        ensures
            r == self.uniform_spec(),
    {
        self.uniform
    }

    /// Set every element to `value`, which the array then records as shared.
    pub(crate) fn fill(&mut self, value: T)
        requires
            old(self).wf(),
        ensures
            final(self).wf(),
            final(self).elems() == Seq::new(old(self).elems().len(), |i: int| value),
            final(self).shape_spec() == old(self).shape_spec(),
            final(self).uniform_spec() == Some(value),
    {
        let n = self.data.len();
        let mut i: usize = 0;
        while i < n
            invariant
                n == self.data@.len(),
                n == old(self).data@.len(),
                self.shape@ == old(self).shape@,
                self.strides@ == old(self).strides@,
                i <= n,
                forall|j: int| 0 <= j < i ==> self.data@[j] == value,
            decreases n - i,
        {
            self.data.set(i, value);
            i += 1;
        }
        self.uniform = Some(value);
        assert(self.data@ =~= Seq::new(n as nat, |i: int| value));
    }

    /// An array of the given shape with every element equal to `value`.
    pub fn full(shape: Vec<usize>, value: T) -> (r: Result<Self, NumRsError>)
        requires
            shape@.len() < isize::MAX,
            forall|k: int| 0 <= k < shape@.len() ==> #[trigger] shape@[k] <= isize::MAX,
        ensures
            match r {
                Ok(a) => a.wf() && size_fits(shape@) && shape_size(shape@) <= isize::MAX && a.shape_spec() == shape@
                    && a.elems() == Seq::new(shape_size(shape@) as nat, |i: int| value) && a.uniform_spec()
                    == Some(value),
                Err(e) => (!size_fits(shape@) && e == NumRsError::ShapeOverflow) || (size_fits(shape@)
                    && shape_size(shape@) > isize::MAX && e == NumRsError::ShapeOverflow),
            },
    {
        let len = size_of_shape(&shape)?;
        if len > isize::MAX as usize {
            return Err(NumRsError::ShapeOverflow);
        }
        let mut data: Vec<T> = Vec::new();
        let mut i: usize = 0;
        while i < len
            invariant
                i <= len,
                data@.len() == i,
                forall|j: int| 0 <= j < i ==> data@[j] == value,
            decreases len - i,
        {
            data.push(value);
            i += 1;
        }
        let strides = c_strides(&shape);
        let r = Array { data, shape, strides, uniform: Some(value) };
        assert(r.elems() =~= Seq::new(shape_size(shape@) as nat, |i: int| value));
        Ok(r)
    }
}

impl<'a, T> ArrayView<'a, T> {
    /// The whole underlying buffer.
    pub closed spec fn data_spec(&self) -> Seq<T> {
        self.data@
    }

    pub closed spec fn shape_spec(&self) -> Seq<usize> {
        self.shape@
    }

    pub closed spec fn strides_spec(&self) -> Seq<isize> {
        self.strides@
    }

    pub closed spec fn offset_spec(&self) -> int {
        self.offset as int
    }

    pub open spec fn wf(&self) -> bool {
        layout_ok(self.shape_spec(), self.strides_spec(), self.offset_spec(), self.data_spec().len() as int)
    }

    /// The elements the view addresses, in row-major order.
    pub open spec fn elems(&self) -> Seq<T> {
        view_elems(self.data_spec(), self.shape_spec(), self.strides_spec(), self.offset_spec())
    }

    /// The element at multi-index `idx`.
    pub open spec fn at(&self, idx: Seq<int>) -> T {
        self.data_spec()[self.offset_spec() + dot(idx, self.strides_spec())]
    }

    pub(crate) fn from_parts(data: &'a [T], shape: Vec<usize>, strides: Vec<isize>, offset: isize) -> (r: ArrayView<
        'a,
        T,
    >)
        ensures
            r.data_spec() == data@,
            r.shape_spec() == shape@,
            r.strides_spec() == strides@,
            r.offset_spec() == offset,
    {
        ArrayView { data, shape, strides, offset }
    }

    pub fn shape(&self) -> (r: &[usize])
        ensures
            r@ == self.shape_spec(),
    {
        self.shape.as_slice()
    }

    pub fn strides(&self) -> (r: &[isize])
        ensures
            r@ == self.strides_spec(),
    {
        self.strides.as_slice()
    }

    pub fn offset(&self) -> (r: isize)
        ensures
            r == self.offset_spec(),
    {
        self.offset
    }

    pub fn ndim(&self) -> (r: usize)
        ensures
            r == self.shape_spec().len(),
    {
        self.shape.len()
    }

    pub(crate) fn raw_data(&self) -> (r: &'a [T])
        ensures
            r@ == self.data_spec(),
    {
        self.data
    }

    /// Number of elements the view addresses.
    pub fn len(&self) -> (r: usize)
        requires
            self.wf(),
        ensures
            r == shape_size(self.shape_spec()),
            r == self.elems().len(),
    {
        proof {
            lemma_shape_size_nonneg(self.shape@);
        }
        match size_of_shape(&self.shape) {
            Ok(n) => n,
            Err(_) => 0,
        }
    }

    pub fn is_empty(&self) -> (r: bool)
        requires
            self.wf(),
        ensures
            r == (self.elems().len() == 0),
    {
        self.len() == 0
    }

    /// Whether the view is laid out in row-major order without gaps.
    pub fn is_c_contiguous(&self) -> (r: bool)
        ensures
            r == c_contiguous_spec(self.shape_spec(), self.strides_spec()),
    {
        is_c_contiguous(&self.shape, &self.strides)
    }

    /// The element at `index` (one coordinate per axis).
    pub fn get(&self, index: &[usize]) -> (r: Result<&'a T, NumRsError>)
        requires
            self.wf(),
        ensures
            get_result(self.data_spec(), self.shape_spec(), self.strides_spec(), self.offset_spec(), index@, r),
    {
        proof {
            self.lemma_offsets_fit();
        }
        let offset = offset_for_index(&self.shape, &self.strides, self.offset, index)?;
        Ok(&self.data[offset])
    }

    /// The view's offsets also fit below `isize::MAX + 1`.
    pub proof fn lemma_offsets_fit(&self)
        requires
            self.wf(),
        ensures
            offsets_within(self.shape_spec(), self.strides_spec(), self.offset_spec(), isize::MAX + 1),
    {
        assert forall|idx: Seq<int>| #[trigger] in_bounds(idx, self.shape_spec()) implies 0 <= self.offset_spec() + dot(
            idx,
            self.strides_spec(),
        ) < isize::MAX + 1 by {
        }
    }

    /// Buffer offset of the element with row-major linear index `linear`.
    pub(crate) fn offset_of(&self, linear: usize) -> (r: usize)
        requires
            self.wf(),
            linear < self.elems().len(),
        ensures
            r == self.offset_spec() + dot(unravel(self.shape_spec(), linear as int), self.strides_spec()),
            r < self.data_spec().len(),
    {
        proof {
            self.lemma_offsets_fit();
            lemma_shape_size_nonneg(self.shape@);
            lemma_positive_size_dims(self.shape@);
            crate::numrs::layout::lemma_unravel_in_bounds(self.shape@, linear as int);
        }
        linear_offset(&self.shape, &self.strides, self.offset, linear)
    }
}

impl<'a, T> ArrayView<'a, T> {
    /// A contiguous, non-empty view lies inside the buffer, so its size fits in `isize`.
    pub proof fn lemma_contiguous_size(&self)
        requires
            self.wf(),
            c_contiguous_spec(self.shape_spec(), self.strides_spec()),
        ensures
            shape_size(self.shape_spec()) <= isize::MAX,
            shape_size(self.shape_spec()) > 0 ==> self.strides_spec() == c_strides_spec(self.shape_spec())
                && 0 <= self.offset_spec() && self.offset_spec() + shape_size(self.shape_spec()) <= self.data_spec().len(),
    {
        lemma_shape_size_nonneg(self.shape@);
        if shape_size(self.shape@) > 0 {
            lemma_positive_size_dims(self.shape@);
            assert(self.strides@ == c_strides_spec(self.shape@));
            crate::numrs::layout::lemma_contiguous_fits(self.shape@, self.offset as int, self.data@.len() as int);
        }
    }

    /// Select a sub-view, one entry per leading axis (missing trailing entries
    /// keep the whole axis); index entries drop their axis. No element is copied.
    pub fn slice(&self, slices: &[Slice]) -> (r: Result<ArrayView<'a, T>, NumRsError>)
        requires
            self.wf(),
            slices_steps_ok(slices@),
        ensures
            slice_result(self.data_spec(), self.shape_spec(), self.strides_spec(), self.offset_spec(), slices@, r),
    {
        let ndim = self.shape.len();
        if slices.len() > ndim {
            return Err(NumRsError::IndexRankMismatch { expected: ndim, actual: slices.len() });
        }
        let ghost sh = self.shape@;
        let ghost st = self.strides@;
        let ghost off = self.offset as int;
        let mut out_shape: Vec<usize> = Vec::new();
        let mut out_strides: Vec<isize> = Vec::new();
        let mut out_offset: isize = self.offset;
        let mut axis: usize = 0;
        while axis < ndim
            invariant
                self.wf(),
                sh == self.shape@,
                st == self.strides@,
                off == self.offset,
                ndim == sh.len(),
                ndim == st.len(),
                slices@.len() <= ndim,
                slices_steps_ok(slices@),
                axis <= ndim,
                forall|k: int| 0 <= k < axis ==> #[trigger] slice_ok(eff_slice(slices@, k), sh[k] as int),
                slice_fits(slices@, sh, st, off, axis as int),
                out_shape@ == slice_out(slices@, sh, st, axis as int).0,
                out_strides@.len() == slice_out(slices@, sh, st, axis as int).1.len(),
                forall|k: int| 0 <= k < out_strides@.len() ==> out_strides@[k] as int == #[trigger] slice_out(slices@, sh, st, axis as int).1[k],
                out_offset == off + slice_out(slices@, sh, st, axis as int).2,
            decreases ndim - axis,
        {
            let slice = if axis < slices.len() { slices[axis] } else { Slice::All };
            assert(slice == eff_slice(slices@, axis as int));
            assert(slice_step_ok(slice));
            let dim = self.shape[axis];
            let stride = self.strides[axis];
            let ghost nxt = slice_out(slices@, sh, st, axis as int + 1);
            match normalize_slice(slice, axis, dim) {
                Ok(NormalizedSlice::Index(index)) => {
                    let t = match index.checked_mul(stride) {
                        Some(t) => t,
                        None => {
                            proof {
                                self.lemma_slice_fits_stop(slices@, axis as int);
                                assert(slice_stops_at(slices@, sh, st, off, axis as int));
                            }
                            return Err(NumRsError::ShapeOverflow);
                        },
                    };
                    out_offset = match out_offset.checked_add(t) {
                        Some(o) => o,
                        None => {
                            proof {
                                self.lemma_slice_fits_stop(slices@, axis as int);
                                assert(slice_stops_at(slices@, sh, st, off, axis as int));
                            }
                            return Err(NumRsError::ShapeOverflow);
                        },
                    };
                },
                Ok(NormalizedSlice::Range { start, len, step }) => {
                    let t = match start.checked_mul(stride) {
                        Some(t) => t,
                        None => {
                            proof {
                                self.lemma_slice_fits_stop(slices@, axis as int);
                                assert(slice_stops_at(slices@, sh, st, off, axis as int));
                            }
                            return Err(NumRsError::ShapeOverflow);
                        },
                    };
                    out_offset = match out_offset.checked_add(t) {
                        Some(o) => o,
                        None => {
                            proof {
                                self.lemma_slice_fits_stop(slices@, axis as int);
                                assert(slice_stops_at(slices@, sh, st, off, axis as int));
                            }
                            return Err(NumRsError::ShapeOverflow);
                        },
                    };
                    let new_stride = match stride.checked_mul(step) {
                        Some(v) => v,
                        None => {
                            proof {
                                self.lemma_slice_fits_stop(slices@, axis as int);
                                assert(slice_stops_at(slices@, sh, st, off, axis as int));
                            }
                            return Err(NumRsError::ShapeOverflow);
                        },
                    };
                    out_shape.push(len);
                    out_strides.push(new_stride);
                },
                Err(e) => {
                    assert(slice_stops_at(slices@, sh, st, off, axis as int));
                    return Err(e);
                },
            }
            axis += 1;
        }
        let ghost fin = slice_out(slices@, sh, st, ndim as int);
        assert(out_strides@ =~= to_isizes(fin.1));
        proof {
            assert(sh.take(ndim as int) =~= sh);
            lemma_slice_size(slices@, sh, st, ndim as int);
            lemma_slice_offsets_within(slices@, sh, st, off, self.data@.len() as int);
            crate::numrs::slicing::lemma_slice_out_len_bound(slices@, sh, st, ndim as int);
            assert forall|k: int| 0 <= k < fin.0.len() implies #[trigger] fin.0[k] <= isize::MAX by {
                if !(fin.0[k] <= isize::MAX) {
                    let j = choose|j: int| 0 <= j < ndim && sh[j] > isize::MAX;
                    assert(sh[j] <= isize::MAX);
                }
            }
        }
        Ok(ArrayView::from_parts(self.data, out_shape, out_strides, out_offset))
    }

    /// In a non-empty row-major view, the element with linear index `i` sits at `offset + i`.
    pub proof fn lemma_contiguous_elems(&self)
        requires
            self.wf(),
            c_contiguous_spec(self.shape_spec(), self.strides_spec()),
        ensures
            forall|i: int|
                0 <= i < self.elems().len() ==> #[trigger] self.elems()[i] == self.data_spec()[self.offset_spec() + i],
    {
        self.lemma_contiguous_size();
        lemma_shape_size_nonneg(self.shape@);
        if shape_size(self.shape@) > 0 {
            lemma_c_layout(self.shape@);
        }
    }

    /// Reinterpret a row-major view under another shape with the same number
    /// of elements; fails with `NonContiguousReshape` when the view is not row-major.
    pub fn reshape_exact(&self, shape: &[usize]) -> (r: Result<ArrayView<'a, T>, NumRsError>)
        requires
            self.wf(),
            shape@.len() < isize::MAX,
            forall|k: int| 0 <= k < shape@.len() ==> #[trigger] shape@[k] <= isize::MAX,
        ensures
            reshape_exact_result(self.data_spec(), self.shape_spec(), self.strides_spec(), self.offset_spec(), shape@, r),
    {
        let len = size_of_shape(shape)?;
        if len != self.len() {
            return Err(size_mismatch_error(shape, len, self.len()));
        }
        if !self.is_c_contiguous() {
            return Err(NumRsError::NonContiguousReshape { shape: copy_usizes(&self.shape), strides: copy_isizes(&self.strides) });
        }
        let new_shape = copy_usizes(shape);
        let new_strides = c_strides(shape);
        let v = ArrayView::from_parts(self.data, new_shape, new_strides, self.offset);
        proof {
            self.lemma_contiguous_size();
            self.lemma_contiguous_elems();
            lemma_shape_size_nonneg(shape@);
            if len > 0 {
                lemma_c_layout(shape@);
                assert forall|idx: Seq<int>| #[trigger] in_bounds(idx, shape@) implies 0 <= self.offset + dot(idx, c_strides_spec(shape@)) < self.data@.len() by {
                    assert(0 <= 0 + dot(idx, c_strides_spec(shape@)) < shape_size(shape@));
                }
                assert(v.elems() =~= self.elems());
            } else {
                assert forall|idx: Seq<int>| #[trigger] in_bounds(idx, shape@) implies 0 <= self.offset + dot(idx, c_strides_spec(shape@)) < self.data@.len() by {
                    crate::numrs::layout::lemma_in_bounds_dims(idx, shape@);
                    crate::numrs::shape::lemma_shape_size_zero(shape@);
                }
                assert(v.elems() =~= self.elems());
            }
        }
        Ok(v)
    }

    /// Reshape with a NumPy specification in which one entry may be `-1`.
    pub fn reshape(&self, shape: &[isize]) -> (r: Result<ArrayView<'a, T>, NumRsError>)
        requires
            self.wf(),
            shape@.len() < isize::MAX,
        ensures
            reshape_result(self.data_spec(), self.shape_spec(), self.strides_spec(), self.offset_spec(), shape@, r),
    {
        let len = self.len();
        let resolved = resolve_shape(shape, len)?;
        if !self.is_c_contiguous() {
            return Err(NumRsError::NonContiguousReshape { shape: copy_usizes(&self.shape), strides: copy_isizes(&self.strides) });
        }
        proof {
            self.lemma_contiguous_size();
            lemma_shape_size_nonneg(self.shape@);
            assert forall|k: int| 0 <= k < resolved@.len() implies #[trigger] resolved@[k] <= isize::MAX by {
                if shape@[k] != -1 {
                    assert(resolved@[k] == shape@[k] as usize);
                } else {
                    crate::numrs::shape::lemma_known_product_nonneg(shape@);
                    crate::numrs::shape::lemma_resolvable_inferred(shape@, len as int, k);
                    assert(resolved@[k] == #[verifier::truncate] (((len as int) / known_product(shape@)) as usize));
                    assert((len as int) / known_product(shape@) <= len) by {
                        vstd::arithmetic::div_mod::lemma_div_is_ordered_by_denominator(len as int, 1, known_product(shape@));
                    }
                }
            }
        }
        self.reshape_exact(resolved.as_slice())
    }

    /// A one-dimensional view of a row-major view.
    pub fn ravel(&self) -> (r: Result<ArrayView<'a, T>, NumRsError>)
        requires
            self.wf(),
        ensures
            ravel_result(self.data_spec(), self.shape_spec(), self.strides_spec(), self.offset_spec(), r),
    {
        let len = self.len();
        if !self.is_c_contiguous() {
            return Err(NumRsError::NonContiguousReshape { shape: copy_usizes(&self.shape), strides: copy_isizes(&self.strides) });
        }
        proof {
            self.lemma_contiguous_size();
        }
        let mut flat: Vec<usize> = Vec::new();
        flat.push(len);
        proof {
            assert(flat@.drop_last() =~= Seq::<usize>::empty());
            assert(shape_size(flat@.drop_last()) == 1);
            assert(shape_size(flat@) == len);
            assert(size_fits(flat@.drop_last()));
            assert(size_fits(flat@));
            assert(flat@ =~= seq![len]);
        }
        self.reshape_exact(flat.as_slice())
    }

    /// Reorder the axes: axis `k` of the result is axis `axes[k]` of the view.
    pub fn permute_axes(&self, axes: &[usize]) -> (r: Result<ArrayView<'a, T>, NumRsError>)
        requires
            self.wf(),
        ensures
            permute_axes_result(self.data_spec(), self.shape_spec(), self.strides_spec(), self.offset_spec(), axes@, r),
    {
        permute_unique_axes(axes, self.shape.len())?;
        let mut shape: Vec<usize> = Vec::new();
        let mut strides: Vec<isize> = Vec::new();
        let mut k: usize = 0;
        while k < axes.len()
            invariant
                k <= axes@.len(),
                is_axis_permutation(axes@, self.shape@.len() as int),
                self.shape@.len() == self.strides@.len(),
                shape@ == permute_seq(self.shape@, axes@).take(k as int),
                strides@ == permute_seq(self.strides@, axes@).take(k as int),
            decreases axes@.len() - k,
        {
            let a = axes[k];
            shape.push(self.shape[a]);
            strides.push(self.strides[a]);
            k += 1;
            assert(shape@ =~= permute_seq(self.shape@, axes@).take(k as int));
            assert(strides@ =~= permute_seq(self.strides@, axes@).take(k as int));
        }
        assert(shape@ =~= permute_seq(self.shape@, axes@));
        assert(strides@ =~= permute_seq(self.strides@, axes@));
        proof {
            crate::numrs::layout::lemma_permute_fits(self.shape@, axes@);
            lemma_permute_offsets_within(self.shape@, self.strides@, axes@, self.offset as int, self.data@.len() as int);
            assert forall|k: int| 0 <= k < shape@.len() implies #[trigger] shape@[k] <= isize::MAX by {
                assert(shape@[k] == self.shape@[axes@[k] as int]);
            }
            assert forall|idx: Seq<int>| #[trigger] in_bounds(idx, shape@) implies self.offset + dot(idx, strides@)
                == self.offset + dot(unpermute_index(idx, axes@), self.strides@) by {
                lemma_permute_dot(self.shape@, self.strides@, axes@, idx);
            }
        }
        Ok(ArrayView::from_parts(self.data, shape, strides, self.offset))
    }

    /// Reverse the order of the axes.
    pub fn transpose(&self) -> (r: ArrayView<'a, T>)
        requires
            self.wf(),
        ensures
            r.wf(),
            transposed(*self, r),
            r.data_spec() == self.data_spec(),
            r.shape_spec() == permute_seq(self.shape_spec(), reversed_axes(self.shape_spec().len() as int)),
            r.strides_spec() == permute_seq(self.strides_spec(), reversed_axes(self.shape_spec().len() as int)),
            r.offset_spec() == self.offset_spec(),
            forall|idx: Seq<int>| #[trigger] in_bounds(idx, r.shape_spec()) ==> r.at(idx) == self.at(
                unpermute_index(idx, reversed_axes(self.shape_spec().len() as int)),
            ),
    {
        let n = self.shape.len();
        let mut axes: Vec<usize> = Vec::new();
        let mut k: usize = 0;
        while k < n
            invariant
                k <= n,
                axes@ == reversed_axes(n as int).take(k as int),
            decreases n - k,
        {
            axes.push(n - 1 - k);
            k += 1;
            assert(axes@ =~= reversed_axes(n as int).take(k as int));
        }
        assert(axes@ =~= reversed_axes(n as int));
        assert(is_axis_permutation(axes@, n as int));
        match self.permute_axes(axes.as_slice()) {
            Ok(v) => v,
            Err(_) => {
                assert(false);
                ArrayView::from_parts(self.data, Vec::new(), Vec::new(), 0)
            },
        }
    }

    /// View the array as `shape` following NumPy broadcasting (new leading axes
    /// and stretched length-1 axes repeat elements); no element is copied.
    pub fn broadcast_to(&self, shape: &[usize]) -> (r: Result<ArrayView<'a, T>, NumRsError>)
        requires
            self.wf(),
            shape@.len() < isize::MAX,
            forall|k: int| 0 <= k < shape@.len() ==> #[trigger] shape@[k] <= isize::MAX,
        ensures
            broadcast_to_result(self.data_spec(), self.shape_spec(), self.strides_spec(), self.offset_spec(), shape@, r),
    {
        let strides = broadcast_strides(&self.shape, &self.strides, shape)?;
        if !fits_or_empty_exec(shape) {
            return Err(NumRsError::ShapeOverflow);
        }
        proof {
            lemma_broadcast_offsets_within(self.shape@, self.strides@, shape@, self.offset as int, self.data@.len() as int);
            assert forall|idx: Seq<int>| #[trigger] in_bounds(idx, shape@) implies dot(idx, strides@) == dot(
                broadcast_source_index(self.shape@, shape@, idx),
                self.strides@,
            ) by {
                lemma_broadcast_dot(self.shape@, self.strides@, shape@, idx);
            }
        }
        Ok(ArrayView::from_parts(self.data, copy_usizes(shape), strides, self.offset))
    }

    /// Insert a new axis of length 1 at position `axis` (negative counts from the end).
    pub fn expand_dims(&self, axis: isize) -> (r: Result<ArrayView<'a, T>, NumRsError>)
        requires
            self.wf(),
            self.shape_spec().len() + 1 < isize::MAX,
        ensures
            expand_dims_result(self.data_spec(), self.shape_spec(), self.strides_spec(), self.offset_spec(), axis, r),
    {
        let a = normalize_insert_axis(axis, self.shape.len())?;
        let mut shape = copy_usizes(&self.shape);
        let mut strides = copy_isizes(&self.strides);
        shape.insert(a, 1);
        strides.insert(a, 0);
        let v = ArrayView::from_parts(self.data, shape, strides, self.offset);
        proof {
            let n = self.shape@.len() as int;
            lemma_size_insert_one(self.shape@, a as int);
            assert forall|idx: Seq<int>| #[trigger] in_bounds(idx, shape@) implies in_bounds(idx.remove(a as int), self.shape@)
                && dot(idx, strides@) == dot(idx.remove(a as int), self.strides@) by {
                assert(0 <= idx[a as int] < shape@[a as int]);
                lemma_dot_insert(idx, self.strides@, a as int, n);
                assert forall|k: int| 0 <= k < n implies 0 <= #[trigger] idx.remove(a as int)[k] < self.shape@[k] by {
                    if k < a {
                        assert(idx.remove(a as int)[k] == idx[k]);
                        assert(shape@[k] == self.shape@[k]);
                    } else {
                        assert(idx.remove(a as int)[k] == idx[k + 1]);
                        assert(shape@[k + 1] == self.shape@[k]);
                    }
                }
            }
            assert forall|k: int| 0 <= k < shape@.len() implies #[trigger] shape@[k] <= isize::MAX by {
                if k < a {
                    assert(shape@[k] == self.shape@[k]);
                } else if k > a {
                    assert(shape@[k] == self.shape@[k - 1]);
                }
            }
            lemma_shape_size_nonneg(self.shape@);
            assert forall|i: int| 0 <= i < v.elems().len() implies #[trigger] v.elems()[i] == self.elems()[i] by {
                lemma_shape_size_nonneg(shape@);
                lemma_positive_size_dims(shape@);
                crate::numrs::layout::lemma_unravel_in_bounds(shape@, i);
                lemma_unravel_insert(self.shape@, a as int, i);
                let u = unravel(self.shape@, i);
                assert(u.insert(a as int, 0).remove(a as int) =~= u);
                lemma_dot_insert(u.insert(a as int, 0), self.strides@, a as int, n);
            }
            assert(v.elems() =~= self.elems());
        }
        Ok(v)
    }

    /// Drop length-1 axes: the given one (negative counts from the end), or all of them.
    pub fn squeeze(&self, axis: Option<isize>) -> (r: Result<ArrayView<'a, T>, NumRsError>)
        requires
            self.wf(),
        ensures
            squeeze_result(self.data_spec(), self.shape_spec(), self.strides_spec(), self.offset_spec(), axis, r),
    {
        let ndim = self.shape.len();
        let sel: Option<usize> = match axis {
            Some(a) => {
                let a = normalize_axis(a, ndim)?;
                if self.shape[a] != 1 {
                    return Err(NumRsError::CannotSqueezeAxis { axis: a, len: self.shape[a] });
                }
                Some(a)
            },
            None => None,
        };
        let ghost sh = self.shape@;
        let ghost st = self.strides@;
        let ghost sq = squeeze_slices(sh, sel);
        let mut shape: Vec<usize> = Vec::new();
        let mut strides: Vec<isize> = Vec::new();
        let mut i: usize = 0;
        while i < ndim
            invariant
                self.wf(),
                sh == self.shape@,
                st == self.strides@,
                ndim == sh.len(),
                ndim == st.len(),
                sq == squeeze_slices(sh, sel),
                sel matches Some(a) ==> a < ndim && sh[a as int] == 1,
                i <= ndim,
                forall|k: int| 0 <= k < i ==> #[trigger] slice_ok(eff_slice(sq, k), sh[k] as int),
                slice_fits(sq, sh, st, self.offset as int, i as int),
                shape@ == slice_out(sq, sh, st, i as int).0,
                strides@.len() == slice_out(sq, sh, st, i as int).1.len(),
                forall|k: int| 0 <= k < strides@.len() ==> strides@[k] as int == #[trigger] slice_out(sq, sh, st, i as int).1[k],
                slice_out(sq, sh, st, i as int).2 == 0,
            decreases ndim - i,
        {
            let keep = match sel {
                Some(a) => i != a,
                None => self.shape[i] != 1,
            };
            assert(eff_slice(sq, i as int) == (if keep { Slice::All } else { Slice::Index(0) }));
            proof {
                let dim = sh[i as int] as int;
                let stv = st[i as int] as int;
                if keep {
                    assert(normalized_spec(eff_slice(sq, i as int), dim) == (NormalizedSlice::Range { start: 0, len: sh[i as int], step: 1 }));
                    assert(0 * stv == 0);
                    assert(stv * 1 == stv);
                } else {
                    assert(wrap_negative(0, dim) == 0);
                    assert(normalized_spec(eff_slice(sq, i as int), dim) == NormalizedSlice::Index(0));
                    assert(0 * stv == 0);
                }
                assert(slice_out(sq, sh, st, i as int + 1).2 == 0);
            }
            if keep {
                shape.push(self.shape[i]);
                strides.push(self.strides[i]);
            }
            i += 1;
        }
        proof {
            let fin = slice_out(sq, sh, st, ndim as int);
            assert(strides@ =~= to_isizes(fin.1));
            assert(sh.take(ndim as int) =~= sh);
            lemma_slice_size(sq, sh, st, ndim as int);
            lemma_slice_offsets_within(sq, sh, st, self.offset as int, self.data@.len() as int);
            crate::numrs::slicing::lemma_slice_out_len_bound(sq, sh, st, ndim as int);
            assert forall|k: int| 0 <= k < fin.0.len() implies #[trigger] fin.0[k] <= isize::MAX by {
                if !(fin.0[k] <= isize::MAX) {
                    let j = choose|j: int| 0 <= j < ndim && sh[j] > isize::MAX;
                    assert(sh[j] <= isize::MAX);
                }
            }
        }
        Ok(ArrayView::from_parts(self.data, shape, strides, self.offset))
    }

    proof fn lemma_slice_fits_stop(&self, slices: Seq<Slice>, axis: int)
        requires
            0 <= axis < self.shape_spec().len(),
            !slice_fits(slices, self.shape_spec(), self.strides_spec(), self.offset_spec(), axis + 1) || !slice_ok(
                eff_slice(slices, axis),
                self.shape_spec()[axis] as int,
            ),
        ensures
            !(slices_ok(slices, self.shape_spec()) && slice_fits(
                slices,
                self.shape_spec(),
                self.strides_spec(),
                self.offset_spec(),
                self.shape_spec().len() as int,
            )),
    {
        if slices_ok(slices, self.shape_spec()) && slice_fits(
            slices,
            self.shape_spec(),
            self.strides_spec(),
            self.offset_spec(),
            self.shape_spec().len() as int,
        ) {
            crate::numrs::slicing::lemma_slice_fits_prefix(
                slices,
                self.shape_spec(),
                self.strides_spec(),
                self.offset_spec(),
                axis + 1,
                self.shape_spec().len() as int,
            );
            assert(slice_ok(eff_slice(slices, axis), self.shape_spec()[axis] as int));
        }
    }
}

impl<'a, T: Copy> ArrayView<'a, T> {
    /// Gather elements by flat (row-major) position; negative positions count from the end.
    pub fn take(&self, indices: &[isize]) -> (r: Result<Array<T>, NumRsError>)
        requires
            self.wf(),
            indices@.len() <= isize::MAX,
        ensures
            take_result(self.data_spec(), self.shape_spec(), self.strides_spec(), self.offset_spec(), indices@, r),
    {
        let len = self.len();
        let mut out: Vec<T> = Vec::new();
        let mut j: usize = 0;
        while j < indices.len()
            invariant
                self.wf(),
                len == self.elems().len(),
                j <= indices@.len(),
                out@.len() == j,
                forall|k: int| 0 <= k < j ==> #[trigger] take_ok(indices@[k], len as int),
                forall|k: int| 0 <= k < j ==> #[trigger] out@[k] == self.elems()[take_position(indices@[k], len as int)],
            decreases indices@.len() - j,
        {
            let p = match normalize_take_index(indices[j], 0, len) {
                Ok(p) => p,
                Err(e) => {
                    assert(first_bad_take(indices@, len as int, j as int));
                    return Err(e);
                },
            };
            out.push(self.elem(p));
            j += 1;
        }
        let mut shape: Vec<usize> = Vec::new();
        shape.push(indices.len());
        proof {
            assert(shape@.drop_last() =~= Seq::<usize>::empty());
            assert(shape_size(shape@.drop_last()) == 1);
            assert(size_fits(shape@.drop_last()));
            assert(shape@ =~= seq![indices@.len() as usize]);
        }
        Ok(Array::from_vec_trusted(shape, out))
    }

    /// The element at an in-bounds multi-index given as coordinates.
    pub(crate) fn elem_at(&self, index: &[usize]) -> (r: T)
        requires
            self.wf(),
            in_bounds(to_ints(index@), self.shape_spec()),
        ensures
            r == self.at(to_ints(index@)),
    {
        match self.get(index) {
            Ok(v) => *v,
            Err(_) => {
                assert(false);
                self.data[0]
            },
        }
    }

    /// Gather along one axis: output slot `j` on `axis` holds the source slice
    /// at position `indices[j]` (negative counts from the end of the axis).
    pub fn take_axis(&self, indices: &[isize], axis: isize) -> (r: Result<Array<T>, NumRsError>)
        requires
            self.wf(),
            indices@.len() <= isize::MAX,
        ensures
            take_axis_result(self.data_spec(), self.shape_spec(), self.strides_spec(), self.offset_spec(), indices@, axis, r),
    {
        let ax = normalize_axis(axis, self.shape.len())?;
        let dim = self.shape[ax];
        let ghost positions = Seq::new(indices@.len(), |j: int| take_position(indices@[j], dim as int));
        let mut normalized: Vec<usize> = Vec::new();
        let mut j: usize = 0;
        while j < indices.len()
            invariant
                j <= indices@.len(),
                ax < self.shape@.len(),
                ax == (if axis < 0 { self.shape@.len() + axis } else { axis as int }),
                dim == self.shape@[ax as int],
                normalized@.len() == j,
                positions == Seq::new(indices@.len(), |j: int| take_position(indices@[j], dim as int)),
                forall|k: int| 0 <= k < j ==> #[trigger] take_ok(indices@[k], dim as int),
                forall|k: int| 0 <= k < j ==> #[trigger] normalized@[k] == positions[k],
            decreases indices@.len() - j,
        {
            let p = match normalize_take_index(indices[j], ax, dim) {
                Ok(p) => p,
                Err(e) => {
                    assert(first_bad_take(indices@, dim as int, j as int));
                    assert(first_bad_take(indices@, self.shape@[ax as int] as int, j as int));
                    let ghost n = self.shape@.len() as int;
                    let ghost axi = if axis < 0 { n + axis } else { axis as int };
                    assert(axi == ax);
                    assert(e == (NumRsError::IndexOutOfBounds { axis: axi as usize, index: indices@[j as int], len: self.shape_spec()[axi] }));
                    assert(exists|jj: int| #[trigger] first_bad_take(indices@, self.shape_spec()[axi] as int, jj) && e == (NumRsError::IndexOutOfBounds {
                                axis: axi as usize,
                                index: indices@[jj],
                                len: self.shape_spec()[axi],
                            }));
                    assert(0 <= axi < n);
                    assert(take_axis_error(self.shape_spec(), indices@, axis, e)) by {
                        let sh = self.shape_spec();
                        let n2 = sh.len() as int;
                        let ax2 = if axis < 0 { n2 + axis } else { axis as int };
                        assert(ax2 == axi);
                        assert(!(ax2 < 0 || ax2 >= n2));
                        assert(first_bad_take(indices@, sh[ax2] as int, j as int));
                        assert(e == (NumRsError::IndexOutOfBounds { axis: ax2 as usize, index: indices@[j as int], len: sh[ax2] }));
                        let dm = sh[ax2];
                        assert(has_bad_take(indices@, dm as int));
                        assert(exists|jj: int|
                            first_bad_take(indices@, dm as int, jj) && e == (NumRsError::IndexOutOfBounds {
                                axis: ax2 as usize,
                                index: #[trigger] indices@[jj],
                                len: dm,
                            }));
                    }
                    return Err(e);
                },
            };
            normalized.push(p);
            j += 1;
        }
        let mut out_shape = copy_usizes(&self.shape);
        out_shape.set(ax, indices.len());
        proof {
            assert forall|jj: int| !first_bad_take(indices@, dim as int, jj) by {
                if 0 <= jj < indices@.len() {
                    assert(take_ok(indices@[jj], dim as int));
                }
            }
            assert(!has_bad_take(indices@, dim as int));
            assert(out_shape@ == self.shape@.update(ax as int, indices@.len() as usize));
        }
        let out_len = match size_of_shape(&out_shape) {
            Ok(n) => n,
            Err(_) => {
                return Err(NumRsError::ShapeOverflow);
            },
        };
        if out_len > isize::MAX as usize {
            return Err(NumRsError::ShapeOverflow);
        }
        let mut out: Vec<T> = Vec::new();
        let mut l: usize = 0;
        while l < out_len
            invariant
                self.wf(),
                l <= out_len,
                out_len == shape_size(out_shape@),
                out_shape@ == self.shape@.update(ax as int, indices@.len() as usize),
                ax < self.shape@.len(),
                dim == self.shape@[ax as int],
                normalized@.len() == indices@.len(),
                forall|k: int| 0 <= k < indices@.len() ==> #[trigger] take_ok(indices@[k], dim as int),
                forall|k: int| 0 <= k < indices@.len() ==> #[trigger] normalized@[k] == positions[k],
                positions == Seq::new(indices@.len(), |j: int| take_position(indices@[j], dim as int)),
                out@.len() == l,
                forall|m: int| 0 <= m < l ==> #[trigger] out@[m] == self.at(
                    take_axis_source(unravel(out_shape@, m), ax as int, positions),
                ),
            decreases out_len - l,
        {
            let mut index = unravel_index(&out_shape, l);
            let ghost u = unravel(out_shape@, l as int);
            proof {
                lemma_shape_size_nonneg(out_shape@);
                lemma_positive_size_dims(out_shape@);
                crate::numrs::layout::lemma_unravel_in_bounds(out_shape@, l as int);
                assert(0 <= u[ax as int] < indices@.len());
            }
            let c = index[ax];
            assert(c == u[ax as int]);
            assert(normalized@[c as int] == positions[c as int]);
            assert(take_ok(indices@[c as int], dim as int));
            index.set(ax, normalized[c]);
            proof {
                assert(to_ints(index@) =~= take_axis_source(u, ax as int, positions));
                assert(in_bounds(to_ints(index@), self.shape@)) by {
                    assert forall|k: int| 0 <= k < index@.len() implies 0 <= #[trigger] to_ints(index@)[k] < self.shape@[k] by {
                        if k != ax {
                            assert(0 <= u[k] < out_shape@[k]);
                        }
                    }
                }
            }
            out.push(self.elem_at(index.as_slice()));
            l += 1;
        }
        proof {
            assert forall|k: int| 0 <= k < out_shape@.len() implies #[trigger] out_shape@[k] <= isize::MAX by {
                if k != ax {
                    assert(out_shape@[k] == self.shape@[k]);
                }
            }
        }
        Ok(Array::from_vec_trusted(out_shape, out))
    }

    /// The elements whose mask entry is set, in row-major order; the mask must
    /// have exactly the view's shape.
    pub fn boolean_mask(&self, mask: &ArrayView<'_, bool>) -> (r: Result<Array<T>, NumRsError>)
        requires
            self.wf(),
            mask.wf(),
        ensures
            match r {
                Ok(a) => {
                    &&& self.shape_spec() == mask.shape_spec()
                    &&& a.wf()
                    &&& a.elems() == masked(self.elems(), mask.elems(), self.elems().len() as int)
                    &&& a.shape_spec() == seq![a.elems().len() as usize]
                },
                Err(e) => if self.shape_spec() != mask.shape_spec() {
                    e matches NumRsError::BooleanMaskShapeMismatch { array, mask: m } && array@ == self.shape_spec()
                        && m@ == mask.shape_spec()
                } else {
                    masked(self.elems(), mask.elems(), self.elems().len() as int).len() > isize::MAX && e
                        == NumRsError::ShapeOverflow
                },
            },
    {
        if !usize_slices_eq(self.shape(), mask.shape()) {
            return Err(
                NumRsError::BooleanMaskShapeMismatch { array: copy_usizes(self.shape()), mask: copy_usizes(mask.shape()) },
            );
        }
        let n = self.len();
        let mut out: Vec<T> = Vec::new();
        let mut i: usize = 0;
        while i < n
            invariant
                self.wf(),
                mask.wf(),
                self.shape_spec() == mask.shape_spec(),
                n == self.elems().len(),
                n == mask.elems().len(),
                i <= n,
                out@ == masked(self.elems(), mask.elems(), i as int),
            decreases n - i,
        {
            if mask.elem(i) {
                out.push(self.elem(i));
            }
            i += 1;
        }
        if out.len() > isize::MAX as usize {
            return Err(NumRsError::ShapeOverflow);
        }
        let mut shape: Vec<usize> = Vec::new();
        shape.push(out.len());
        proof {
            assert(shape@.drop_last() =~= Seq::<usize>::empty());
            assert(shape_size(shape@.drop_last()) == 1);
            assert(size_fits(shape@.drop_last()));
            assert(shape@ =~= seq![out@.len() as usize]);
        }
        Ok(Array::from_vec_trusted(shape, out))
    }

    /// The element with row-major linear index `linear`.
    pub(crate) fn elem(&self, linear: usize) -> (r: T)
        requires
            self.wf(),
            linear < self.elems().len(),
        ensures
            r == self.elems()[linear as int],
    {
        let o = self.offset_of(linear);
        self.data[o]
    }

    /// The elements in row-major order, copied into a new vector.
    pub fn to_vec(&self) -> (r: Result<Vec<T>, NumRsError>)
        requires
            self.wf(),
        ensures
            r matches Ok(v) && v@ == self.elems(),
    {
        let n = self.len();
        let mut out: Vec<T> = Vec::new();
        let mut i: usize = 0;
        while i < n
            invariant
                self.wf(),
                n == self.elems().len(),
                i <= n,
                out@ == self.elems().take(i as int),
            decreases n - i,
        {
            let v = self.elem(i);
            out.push(v);
            i += 1;
            assert(out@ =~= self.elems().take(i as int));
        }
        assert(self.elems().take(n as int) =~= self.elems());
        Ok(out)
    }

    /// A new row-major array with the view's shape and elements.
    pub fn to_owned_array(&self) -> (r: Result<Array<T>, NumRsError>)
        requires
            self.wf(),
        ensures
            match r {
                Ok(a) => a.wf() && a.shape_spec() == self.shape_spec() && a.elems() == self.elems(),
                Err(e) => self.elems().len() > isize::MAX && e == NumRsError::ShapeOverflow,
            },
    {
        let v = self.to_vec()?;
        if v.len() > isize::MAX as usize {
            return Err(NumRsError::ShapeOverflow);
        }
        let shape = copy_usizes(&self.shape);
        proof {
            lemma_shape_size_nonneg(self.shape@);
        }
        Ok(Array::from_vec_trusted(shape, v))
    }
}


impl<T> Array<T> {
    /// The element at `index` (one coordinate per axis).
    pub fn get(&self, index: &[usize]) -> (r: Result<&T, NumRsError>)
        requires
            self.wf(),
        ensures
            get_result(self.elems(), self.shape_spec(), self.strides_spec(), 0, index@, r),
    {
        self.view().get(index)
    }

    /// A sliced view; see `ArrayView::slice`.
    pub fn slice(&self, slices: &[Slice]) -> (r: Result<ArrayView<'_, T>, NumRsError>)
        requires
            self.wf(),
            slices_steps_ok(slices@),
        ensures
            slice_result(self.elems(), self.shape_spec(), self.strides_spec(), 0, slices@, r),
    {
        self.view().slice(slices)
    }

    /// A reshaped view; one entry of `shape` may be `-1`.
    pub fn reshape(&self, shape: &[isize]) -> (r: Result<ArrayView<'_, T>, NumRsError>)
        requires
            self.wf(),
            shape@.len() < isize::MAX,
        ensures
            reshape_result(self.elems(), self.shape_spec(), self.strides_spec(), 0, shape@, r),
    {
        self.view().reshape(shape)
    }

    /// A view with the given shape and the same number of elements.
    pub fn reshape_exact(&self, shape: &[usize]) -> (r: Result<ArrayView<'_, T>, NumRsError>)
        requires
            self.wf(),
            shape@.len() < isize::MAX,
            forall|k: int| 0 <= k < shape@.len() ==> #[trigger] shape@[k] <= isize::MAX,
        ensures
            reshape_exact_result(self.elems(), self.shape_spec(), self.strides_spec(), 0, shape@, r),
    {
        self.view().reshape_exact(shape)
    }

    /// A view with the axes in reverse order.
    pub fn transpose(&self) -> (r: ArrayView<'_, T>)
        requires
            self.wf(),
        ensures
            r.wf(),
            r.data_spec() == self.elems(),
            r.shape_spec() == permute_seq(self.shape_spec(), reversed_axes(self.shape_spec().len() as int)),
            r.strides_spec() == permute_seq(self.strides_spec(), reversed_axes(self.shape_spec().len() as int)),
            r.offset_spec() == 0,
            forall|idx: Seq<int>| #[trigger] in_bounds(idx, r.shape_spec()) ==> r.at(idx) == self.elems()[dot(
                unpermute_index(idx, reversed_axes(self.shape_spec().len() as int)),
                self.strides_spec(),
            )],
    {
        self.view().transpose()
    }

    /// A view with the axes reordered by `axes`.
    pub fn permute_axes(&self, axes: &[usize]) -> (r: Result<ArrayView<'_, T>, NumRsError>)
        requires
            self.wf(),
        ensures
            permute_axes_result(self.elems(), self.shape_spec(), self.strides_spec(), 0, axes@, r),
    {
        self.view().permute_axes(axes)
    }

    /// A broadcast view of the given shape.
    pub fn broadcast_to(&self, shape: &[usize]) -> (r: Result<ArrayView<'_, T>, NumRsError>)
        requires
            self.wf(),
            shape@.len() < isize::MAX,
            forall|k: int| 0 <= k < shape@.len() ==> #[trigger] shape@[k] <= isize::MAX,
        ensures
            broadcast_to_result(self.elems(), self.shape_spec(), self.strides_spec(), 0, shape@, r),
    {
        self.view().broadcast_to(shape)
    }

    /// A one-dimensional view of all elements.
    pub fn ravel(&self) -> (r: Result<ArrayView<'_, T>, NumRsError>)
        requires
            self.wf(),
        ensures
            ravel_result(self.elems(), self.shape_spec(), self.strides_spec(), 0, r),
    {
        self.view().ravel()
    }

    /// A view with a new length-1 axis at `axis`.
    pub fn expand_dims(&self, axis: isize) -> (r: Result<ArrayView<'_, T>, NumRsError>)
        requires
            self.wf(),
            self.shape_spec().len() + 1 < isize::MAX,
        ensures
            expand_dims_result(self.elems(), self.shape_spec(), self.strides_spec(), 0, axis, r),
    {
        self.view().expand_dims(axis)
    }

    /// A view without the selected (or all) length-1 axes.
    pub fn squeeze(&self, axis: Option<isize>) -> (r: Result<ArrayView<'_, T>, NumRsError>)
        requires
            self.wf(),
        ensures
            squeeze_result(self.elems(), self.shape_spec(), self.strides_spec(), 0, axis, r),
    {
        self.view().squeeze(axis)
    }
}

impl<T: Copy> Array<T> {
    /// Gather elements by flat position; see `ArrayView::take`.
    pub fn take(&self, indices: &[isize]) -> (r: Result<Array<T>, NumRsError>)
        requires
            self.wf(),
            indices@.len() <= isize::MAX,
        ensures
            take_result(self.elems(), self.shape_spec(), self.strides_spec(), 0, indices@, r),
    {
        self.view().take(indices)
    }

    /// Gather along one axis; see `ArrayView::take_axis`.
    pub fn take_axis(&self, indices: &[isize], axis: isize) -> (r: Result<Array<T>, NumRsError>)
        requires
            self.wf(),
            indices@.len() <= isize::MAX,
        ensures
            take_axis_result(self.elems(), self.shape_spec(), self.strides_spec(), 0, indices@, axis, r),
    {
        self.view().take_axis(indices, axis)
    }

    /// The elements whose mask entry is set, in row-major order.
    pub fn boolean_mask(&self, mask: &Array<bool>) -> (r: Result<Array<T>, NumRsError>)
        requires
            self.wf(),
            mask.wf(),
        ensures
            match r {
                Ok(a) => {
                    &&& self.shape_spec() == mask.shape_spec()
                    &&& a.wf()
                    &&& a.elems() == masked(self.elems(), mask.elems(), self.elems().len() as int)
                    &&& a.shape_spec() == seq![a.elems().len() as usize]
                },
                Err(e) => if self.shape_spec() != mask.shape_spec() {
                    e matches NumRsError::BooleanMaskShapeMismatch { array, mask: m } && array@ == self.shape_spec()
                        && m@ == mask.shape_spec()
                } else {
                    masked(self.elems(), mask.elems(), self.elems().len() as int).len() > isize::MAX && e
                        == NumRsError::ShapeOverflow
                },
            },
    {
        self.view().boolean_mask(&mask.view())
    }
}

/// Position addressed by `index` in a sequence of `len` elements (negative counts from the end).
pub open spec fn take_position(index: isize, len: int) -> int {
    if index < 0 {
        len + index
    } else {
        index as int
    }
}

pub open spec fn take_ok(index: isize, len: int) -> bool {
    0 <= take_position(index, len) < len
}

/// `indices[j]` is the first index that does not address one of `len` elements.
pub open spec fn first_bad_take(indices: Seq<isize>, len: int, j: int) -> bool {
    &&& 0 <= j < indices.len()
    &&& !take_ok(indices[j], len)
    &&& forall|k: int| 0 <= k < j ==> take_ok(indices[k], len)
}

/// Some index does not address one of `len` elements.
pub open spec fn has_bad_take(indices: Seq<isize>, len: int) -> bool {
    exists|j: int| #[trigger] first_bad_take(indices, len, j)
}

/// Resolve a possibly negative index into a sequence of `len` elements.
pub fn normalize_take_index(index: isize, axis: usize, len: usize) -> (r: Result<usize, NumRsError>)
    ensures
        match r {
            Ok(p) => take_ok(index, len as int) && p == take_position(index, len as int),
            Err(e) => !take_ok(index, len as int) && e == (NumRsError::IndexOutOfBounds { axis, index, len }),
        },
{
    if index < 0 {
        let back = ((-(index + 1)) as usize) + 1;
        if back > len {
            return Err(NumRsError::IndexOutOfBounds { axis, index, len });
        }
        Ok(len - back)
    } else {
        let p = index as usize;
        if p >= len {
            return Err(NumRsError::IndexOutOfBounds { axis, index, len });
        }
        Ok(p)
    }
}

/// The elements of `values` whose mask entry is set, among the first `n`, in order.
pub open spec fn masked<T>(values: Seq<T>, mask: Seq<bool>, n: int) -> Seq<T>
    decreases n,
{
    if n <= 0 {
        Seq::<T>::empty()
    } else if mask[n - 1] {
        masked(values, mask, n - 1).push(values[n - 1])
    } else {
        masked(values, mask, n - 1)
    }
}

pub proof fn lemma_masked_len<T>(values: Seq<T>, mask: Seq<bool>, n: int)
    requires
        n >= 0,
    ensures
        masked(values, mask, n).len() <= n,
    decreases n,
{
    if n > 0 {
        lemma_masked_len(values, mask, n - 1);
    }
}

/// The error `take_axis` reports: a bad axis; else the first index outside
/// the axis; else, when every index is good, an output whose size overflows.
pub open spec fn take_axis_error(shape: Seq<usize>, indices: Seq<isize>, axis: isize, e: NumRsError) -> bool {
    let n = shape.len() as int;
    let ax = if axis < 0 { n + axis } else { axis as int };
    if ax < 0 || ax >= n {
        e == (NumRsError::AxisOutOfBounds { axis, ndim: n as usize })
    } else {
        let dim = shape[ax];
        if has_bad_take(indices, dim as int) {
            exists|j: int|
                first_bad_take(indices, dim as int, j) && e == (NumRsError::IndexOutOfBounds {
                    axis: ax as usize,
                    index: #[trigger] indices[j],
                    len: dim,
                })
        } else {
            let out = shape.update(ax, indices.len() as usize);
            !(size_fits(out) && shape_size(out) <= isize::MAX) && e == NumRsError::ShapeOverflow
        }
    }
}

/// The source multi-index read by `take_axis` for output multi-index `idx`.
pub open spec fn take_axis_source(idx: Seq<int>, axis: int, positions: Seq<int>) -> Seq<int> {
    idx.update(axis, positions[idx[axis]])
}

/// What `get` returns for a view with buffer `sdata`, shape `sshape`, strides
/// `sstrides` and offset `soff`.
pub open spec fn get_result<'a, T>(sdata: Seq<T>, sshape: Seq<usize>, sstrides: Seq<isize>, soff: int, index: Seq<usize>, r: Result<&'a T, NumRsError>) -> bool {
    &&& match r {
            Ok(v) => in_bounds(to_ints(index), sshape) && *v == sdata[soff + dot(to_ints(index), sstrides)],
            Err(e) => !in_bounds(to_ints(index), sshape) && if index.len()
                != sshape.len() {
                e == (NumRsError::IndexRankMismatch {
                    expected: sshape.len() as usize,
                    actual: index.len() as usize,
                })
            } else {
                exists|axis: int| #[trigger]
                    first_bad_axis(index, sshape, axis) && e == (NumRsError::IndexOutOfBounds {
                        axis: axis as usize,
                        index: #[verifier::truncate] (index[axis] as isize),
                        len: sshape[axis],
                    })
            },
        }
}

/// What `slice` returns for a view with buffer `sdata`, shape `sshape`, strides
/// `sstrides` and offset `soff`.
pub open spec fn slice_result<'a, T>(sdata: Seq<T>, sshape: Seq<usize>, sstrides: Seq<isize>, soff: int, slices: Seq<Slice>, r: Result<ArrayView<'a, T>, NumRsError>) -> bool {
    &&& match r {
            Ok(v) => {
                let n = sshape.len() as int;
                let out = slice_out(slices, sshape, sstrides, n);
                &&& slices_ok(slices, sshape)
                &&& slice_fits(slices, sshape, sstrides, soff, n)
                &&& v.wf()
                &&& v.data_spec() == sdata
                &&& v.shape_spec() == out.0
                &&& v.strides_spec() == to_isizes(out.1)
                &&& v.offset_spec() == soff + out.2
                &&& forall|o: Seq<int>| #[trigger] in_bounds(o, v.shape_spec()) ==> v.at(o) == sdata[soff + dot(
                    slice_source_index(slices, sshape, sstrides, o), sstrides)]
            },
            Err(e) => {
                &&& !(slices_ok(slices, sshape) && slice_fits(
                    slices,
                    sshape,
                    sstrides,
                    soff,
                    sshape.len() as int,
                ))
                &&& slices.len() > sshape.len() ==> e == (NumRsError::IndexRankMismatch {
                    expected: sshape.len() as usize,
                    actual: slices.len() as usize,
                })
                &&& if slices.len() > sshape.len() {
                    true
                } else {
                    exists|a: int| #[trigger]
                        slice_stops_at(slices, sshape, sstrides, soff, a) && slice_axis_error(
                            eff_slice(slices, a),
                            a,
                            sshape[a] as int,
                            e,
                        )
                }
            },
        }
}

/// What `reshape_exact` returns for a view with buffer `sdata`, shape `sshape`, strides
/// `sstrides` and offset `soff`.
pub open spec fn reshape_exact_result<'a, T>(sdata: Seq<T>, sshape: Seq<usize>, sstrides: Seq<isize>, soff: int, shape: Seq<usize>, r: Result<ArrayView<'a, T>, NumRsError>) -> bool {
    &&& match r {
            Ok(v) => {
                &&& shape_size(shape) == shape_size(sshape)
                &&& c_contiguous_spec(sshape, sstrides)
                &&& v.wf()
                &&& v.data_spec() == sdata
                &&& v.shape_spec() == shape
                &&& v.strides_spec() == c_strides_spec(shape)
                &&& v.offset_spec() == soff
                &&& v.elems() == view_elems(sdata, sshape, sstrides, soff)
            },
            Err(e) => if !size_fits(shape) {
                e == NumRsError::ShapeOverflow
            } else if shape_size(shape) != shape_size(sshape) {
                invalid_shape_with(e, size_mismatch_text(shape, shape_size(shape) as nat, shape_size(sshape) as nat))
            } else {
                !c_contiguous_spec(sshape, sstrides) && (e matches NumRsError::NonContiguousReshape {
                    shape: s,
                    strides: t,
                } && s@ == sshape && t@ == sstrides)
            },
        }
}

/// What `reshape` returns for a view with buffer `sdata`, shape `sshape`, strides
/// `sstrides` and offset `soff`.
pub open spec fn reshape_result<'a, T>(sdata: Seq<T>, sshape: Seq<usize>, sstrides: Seq<isize>, soff: int, shape: Seq<isize>, r: Result<ArrayView<'a, T>, NumRsError>) -> bool {
    &&& match r {
            Ok(v) => {
                &&& resolvable(shape, shape_size(sshape))
                &&& c_contiguous_spec(sshape, sstrides)
                &&& v.wf()
                &&& v.data_spec() == sdata
                &&& v.shape_spec() == resolved_shape(shape, shape_size(sshape))
                &&& v.offset_spec() == soff
                &&& v.elems() == view_elems(sdata, sshape, sstrides, soff)
            },
            Err(e) => if !resolvable(shape, shape_size(sshape)) {
                resolve_error(shape, shape_size(sshape), e)
            } else {
                !c_contiguous_spec(sshape, sstrides) && (e matches NumRsError::NonContiguousReshape {
                    shape: s,
                    strides: t,
                } && s@ == sshape && t@ == sstrides)
            },
        }
}

/// What `ravel` returns for a view with buffer `sdata`, shape `sshape`, strides
/// `sstrides` and offset `soff`.
pub open spec fn ravel_result<'a, T>(sdata: Seq<T>, sshape: Seq<usize>, sstrides: Seq<isize>, soff: int, r: Result<ArrayView<'a, T>, NumRsError>) -> bool {
    &&& match r {
            Ok(v) => {
                &&& c_contiguous_spec(sshape, sstrides)
                &&& v.wf()
                &&& v.shape_spec() == seq![shape_size(sshape) as usize]
                &&& v.elems() == view_elems(sdata, sshape, sstrides, soff)
            },
            Err(e) => !c_contiguous_spec(sshape, sstrides) && (e matches NumRsError::NonContiguousReshape {
                shape: s,
                strides: t,
            } && s@ == sshape && t@ == sstrides),
        }
}

/// What `permute_axes` returns for a view with buffer `sdata`, shape `sshape`, strides
/// `sstrides` and offset `soff`.
pub open spec fn permute_axes_result<'a, T>(sdata: Seq<T>, sshape: Seq<usize>, sstrides: Seq<isize>, soff: int, axes: Seq<usize>, r: Result<ArrayView<'a, T>, NumRsError>) -> bool {
    &&& match r {
            Ok(v) => {
                &&& is_axis_permutation(axes, sshape.len() as int)
                &&& v.wf()
                &&& v.data_spec() == sdata
                &&& v.shape_spec() == permute_seq(sshape, axes)
                &&& v.strides_spec() == permute_seq(sstrides, axes)
                &&& v.offset_spec() == soff
                &&& forall|idx: Seq<int>| #[trigger] in_bounds(idx, v.shape_spec()) ==> v.at(idx) == sdata[soff + dot(
                    unpermute_index(idx, axes), sstrides)]
            },
            Err(e) => !is_axis_permutation(axes, sshape.len() as int) && permute_error(axes, sshape.len() as usize, e),
        }
}

/// What `broadcast_to` returns for a view with buffer `sdata`, shape `sshape`, strides
/// `sstrides` and offset `soff`.
pub open spec fn broadcast_to_result<'a, T>(sdata: Seq<T>, sshape: Seq<usize>, sstrides: Seq<isize>, soff: int, shape: Seq<usize>, r: Result<ArrayView<'a, T>, NumRsError>) -> bool {
    &&& match r {
            Ok(v) => {
                &&& broadcasts_to(sshape, shape)
                &&& fits_or_empty(shape)
                &&& v.wf()
                &&& v.data_spec() == sdata
                &&& v.shape_spec() == shape
                &&& v.strides_spec() == broadcast_strides_spec(sshape, sstrides, shape)
                &&& v.offset_spec() == soff
                &&& forall|idx: Seq<int>| #[trigger] in_bounds(idx, v.shape_spec()) ==> v.at(idx) == sdata[soff + dot(
                    broadcast_source_index(sshape, shape, idx), sstrides)]
            },
            Err(e) => if !broadcasts_to(sshape, shape) {
                e matches NumRsError::BroadcastMismatch { left: l, right: rr } && l@ == sshape && rr@ == shape
            } else {
                !fits_or_empty(shape) && e == NumRsError::ShapeOverflow
            },
        }
}

/// What `expand_dims` returns for a view with buffer `sdata`, shape `sshape`, strides
/// `sstrides` and offset `soff`.
pub open spec fn expand_dims_result<'a, T>(sdata: Seq<T>, sshape: Seq<usize>, sstrides: Seq<isize>, soff: int, axis: isize, r: Result<ArrayView<'a, T>, NumRsError>) -> bool {
    &&& match r {
            Ok(v) => {
                let n = sshape.len() as int;
                let a = if axis < 0 { n + 1 + axis } else { axis as int };
                &&& 0 <= a <= n
                &&& v.wf()
                &&& v.data_spec() == sdata
                &&& v.shape_spec() == sshape.insert(a, 1usize)
                &&& v.strides_spec() == sstrides.insert(a, 0isize)
                &&& v.offset_spec() == soff
                &&& v.elems() == view_elems(sdata, sshape, sstrides, soff)
            },
            Err(e) => {
                let n = sshape.len() as int;
                let a = if axis < 0 { n + 1 + axis } else { axis as int };
                !(0 <= a <= n) && e == (NumRsError::AxisOutOfBounds { axis, ndim: (n + 1) as usize })
            },
        }
}

/// What `squeeze` returns for a view with buffer `sdata`, shape `sshape`, strides
/// `sstrides` and offset `soff`.
pub open spec fn squeeze_result<'a, T>(sdata: Seq<T>, sshape: Seq<usize>, sstrides: Seq<isize>, soff: int, axis: Option<isize>, r: Result<ArrayView<'a, T>, NumRsError>) -> bool {
    &&& match r {
            Ok(v) => {
                let n = sshape.len() as int;
                let sel = match axis {
                    Some(a) => Some((if a < 0 { n + a } else { a as int }) as usize),
                    None => None::<usize>,
                };
                let sq = squeeze_slices(sshape, sel);
                let out = slice_out(sq, sshape, sstrides, n);
                &&& (axis matches Some(a) ==> 0 <= (if a < 0 { n + a } else { a as int }) < n
                    && sshape[if a < 0 { n + a } else { a as int }] == 1)
                &&& v.wf()
                &&& v.data_spec() == sdata
                &&& v.shape_spec() == out.0
                &&& v.strides_spec() == to_isizes(out.1)
                &&& v.offset_spec() == soff
                &&& forall|o: Seq<int>| #[trigger] in_bounds(o, v.shape_spec()) ==> v.at(o) == sdata[soff + dot(
                    slice_source_index(sq, sshape, sstrides, o), sstrides)]
            },
            Err(e) => match axis {
                Some(a) => {
                    let n = sshape.len() as int;
                    let na = if a < 0 { n + a } else { a as int };
                    if !(0 <= na < n) {
                        e == (NumRsError::AxisOutOfBounds { axis: a, ndim: n as usize })
                    } else {
                        sshape[na] != 1 && e == (NumRsError::CannotSqueezeAxis {
                            axis: na as usize,
                            len: sshape[na],
                        })
                    }
                },
                None => false,
            },
        }
}

/// `t` is what `transpose` gives for `v`: the same buffer and offset, with
/// the shape and the strides in reverse order.
pub open spec fn transposed<'a, T>(v: ArrayView<'a, T>, t: ArrayView<'a, T>) -> bool {
    let rev = reversed_axes(v.shape_spec().len() as int);
    &&& t.data_spec() == v.data_spec()
    &&& t.shape_spec() == permute_seq(v.shape_spec(), rev)
    &&& t.strides_spec() == permute_seq(v.strides_spec(), rev)
    &&& t.offset_spec() == v.offset_spec()
}

/// Transposing twice gives back the view: the buffer, shape, strides and
/// offset are restored, and so is every element.
pub proof fn lemma_transpose_round_trip<'a, T>(v: ArrayView<'a, T>, t: ArrayView<'a, T>, u: ArrayView<'a, T>)
    requires
        v.wf(),
        transposed(v, t),
        transposed(t, u),
    ensures
        u.data_spec() == v.data_spec(),
        u.shape_spec() == v.shape_spec(),
        u.strides_spec() == v.strides_spec(),
        u.offset_spec() == v.offset_spec(),
        u.elems() == v.elems(),
{
    let n = v.shape_spec().len() as int;
    assert(v.strides_spec().len() == n);
    assert(t.shape_spec().len() == n);
    crate::numrs::layout::lemma_transpose_twice(v.shape_spec());
    crate::numrs::layout::lemma_transpose_twice(v.strides_spec());
}

proof fn lemma_squeeze_inserted(shape: Seq<usize>, strides: Seq<isize>, a: int, j: int)
    requires
        0 <= a <= shape.len(),
        shape.len() < isize::MAX,
        shape.len() == strides.len(),
        0 <= j <= shape.len() + 1,
    ensures
        ({
            let sh = shape.insert(a, 1usize);
            let st = strides.insert(a, 0isize);
            let k = if j <= a { j } else { j - 1 };
            slice_out(squeeze_slices(sh, Some(a as usize)), sh, st, j) == (
                shape.take(k),
                Seq::new(k as nat, |i: int| strides[i] as int),
                0int,
            )
        }),
    decreases j,
{
    let sh = shape.insert(a, 1usize);
    let st = strides.insert(a, 0isize);
    let sl = squeeze_slices(sh, Some(a as usize));
    if j > 0 {
        lemma_squeeze_inserted(shape, strides, a, j - 1);
        let k = if j <= a { j } else { j - 1 };
        assert(eff_slice(sl, j - 1) == sl[j - 1]);
        assert((a as usize) as int == a);
        if j - 1 == a {
            assert(sl[j - 1] == Slice::Index(0));
            assert(sh[j - 1] == 1);
            assert(normalized_spec(Slice::Index(0), 1) == NormalizedSlice::Index(0));
        } else {
            assert(sl[j - 1] == Slice::All);
            let src = if j - 1 < a { j - 1 } else { j - 2 };
            assert(sh[j - 1] == shape[src]);
            assert(st[j - 1] == strides[src]);
            assert(k - 1 == src);
            let d = sh[j - 1] as int;
            assert(normalized_spec(Slice::All, d) == (NormalizedSlice::Range { start: 0, len: d as usize, step: 1 }));
            let prev = slice_out(sl, sh, st, j - 1);
            assert(slice_out(sl, sh, st, j) == (prev.0.push(d as usize), prev.1.push(st[j - 1] * 1), prev.2 + 0 * st[j - 1]));
            assert(shape.take(k) =~= shape.take(k - 1).push(shape[src]));
            assert(Seq::new(k as nat, |i: int| strides[i] as int) =~= Seq::new((k - 1) as nat, |i: int| strides[i] as int).push(
                st[j - 1] * 1,
            ));
        }
    } else {
        assert(shape.take(0) =~= Seq::<usize>::empty());
        assert(Seq::new(0nat, |i: int| strides[i] as int) =~= Seq::<int>::empty());
    }
}

/// Inserting a length-1 axis with `expand_dims(axis)`, for any axis from
/// `-(ndim + 1)` to `ndim`, succeeds and adds one axis; squeezing the same
/// axis out again succeeds too and gives back the view's buffer, shape,
/// strides and offset.
pub proof fn lemma_expand_squeeze<'a, T>(
    v: ArrayView<'a, T>,
    axis: isize,
    r1: Result<ArrayView<'a, T>, NumRsError>,
    r2: Result<ArrayView<'a, T>, NumRsError>,
)
    requires
        v.wf(),
        -(v.shape_spec().len() + 1) <= axis <= v.shape_spec().len(),
        expand_dims_result(v.data_spec(), v.shape_spec(), v.strides_spec(), v.offset_spec(), axis, r1),
        r1 matches Ok(e) ==> squeeze_result(e.data_spec(), e.shape_spec(), e.strides_spec(), e.offset_spec(), Some(axis), r2),
    ensures
        r1 matches Ok(e) && e.shape_spec().len() == v.shape_spec().len() + 1,
        r2 matches Ok(s) && s.data_spec() == v.data_spec() && s.shape_spec() == v.shape_spec() && s.strides_spec()
            == v.strides_spec() && s.offset_spec() == v.offset_spec(),
{
    let n = v.shape_spec().len() as int;
    let a = if axis < 0 { n + 1 + axis } else { axis as int };
    assert(0 <= a <= n);
    let e = r1->Ok_0;
    assert(e.shape_spec() == v.shape_spec().insert(a, 1usize));
    assert(e.shape_spec().len() == n + 1);
    assert(e.shape_spec()[a] == 1);
    if let Ok(s) = r2 {
        lemma_squeeze_inserted(v.shape_spec(), v.strides_spec(), a, n + 1);
        assert(v.shape_spec().take(n) =~= v.shape_spec());
        assert(to_isizes(Seq::new(n as nat, |i: int| v.strides_spec()[i] as int)) =~= v.strides_spec());
    }
}

/// What `take` returns for a view with buffer `sdata`, shape `sshape`, strides
/// `sstrides` and offset `soff`.
pub open spec fn take_result<'a, T>(sdata: Seq<T>, sshape: Seq<usize>, sstrides: Seq<isize>, soff: int, indices: Seq<isize>, r: Result<Array<T>, NumRsError>) -> bool {
    &&& match r {
            Ok(a) => {
                &&& a.wf()
                &&& a.shape_spec() == seq![indices.len() as usize]
                &&& a.elems().len() == indices.len()
                &&& forall|j: int| 0 <= j < indices.len() ==> take_ok(indices[j], view_elems(sdata, sshape, sstrides, soff).len() as int)
                    && #[trigger] a.elems()[j] == view_elems(sdata, sshape, sstrides, soff)[take_position(indices[j], view_elems(sdata, sshape, sstrides, soff).len() as int)]
            },
            Err(e) => exists|j: int| #[trigger]
                first_bad_take(indices, view_elems(sdata, sshape, sstrides, soff).len() as int, j) && e == (NumRsError::IndexOutOfBounds {
                    axis: 0,
                    index: indices[j],
                    len: view_elems(sdata, sshape, sstrides, soff).len() as usize,
                }),
        }
}

/// What `take_axis` returns for a view with buffer `sdata`, shape `sshape`, strides
/// `sstrides` and offset `soff`.
pub open spec fn take_axis_result<'a, T>(sdata: Seq<T>, sshape: Seq<usize>, sstrides: Seq<isize>, soff: int, indices: Seq<isize>, axis: isize, r: Result<Array<T>, NumRsError>) -> bool {
    &&& match r {
            Ok(a) => {
                let n = sshape.len() as int;
                let ax = if axis < 0 { n + axis } else { axis as int };
                let dim = sshape[ax] as int;
                let positions = Seq::new(indices.len(), |j: int| take_position(indices[j], dim));
                &&& 0 <= ax < n
                &&& forall|j: int| 0 <= j < indices.len() ==> #[trigger] take_ok(indices[j], dim)
                &&& a.wf()
                &&& a.shape_spec() == sshape.update(ax, indices.len() as usize)
                &&& forall|l: int| 0 <= l < a.elems().len() ==> #[trigger] a.elems()[l] == sdata[soff + dot(
                    take_axis_source(unravel(a.shape_spec(), l), ax, positions), sstrides)]
            },
            Err(e) => take_axis_error(sshape, indices, axis, e),
        }
}

} // verus!
