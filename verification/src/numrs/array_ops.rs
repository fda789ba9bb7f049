use vstd::prelude::*;
use crate::numrs::error::NumRsError;
use crate::numrs::array::{Array, ArrayView};
use crate::numrs::contract::tensordot_result;
use crate::numrs::dtype::{CastElement, DType, DTypeKind};
use crate::numrs::element::{Ordered, Scalar};
use crate::numrs::ops::{divisible, quotient, 
    binary_error, binary_ok, binary_result, fits_array, lay_bcast, matmul_result, matrix_product_result, where_result,
};
use crate::numrs::reduce::{all_true, axis_sum, best_index, wprod, wsum};
use crate::numrs::select::{axis_coords, lemma_true_positions, true_positions};
use crate::numrs::contract::norm_axis;
use crate::numrs::shape::{broadcast_shape_spec, shape_size, size_of_shape};
use crate::numrs::layout::{to_ints, unravel, unravel_index};
use crate::numrs::select::lemma_vector_shape;

verus! {

impl<T: Copy> Array<T> {
    /// Apply `f` to each element, keeping the shape.
    pub fn map<U, F: Fn(T) -> U>(&self, f: F) -> (r: Result<Array<U>, NumRsError>)
        requires
            self.wf(),
            forall|x: T| f.requires((x,)),
        ensures
            match r {
                Ok(a) => {
                    &&& a.wf()
                    &&& a.shape_spec() == self.shape_spec()
                    &&& a.elems().len() == self.elems().len()
                    &&& forall|i: int| 0 <= i < self.elems().len() ==> f.ensures((self.elems()[i],), #[trigger] a.elems()[i])
                },
                Err(e) => false,
            },
    {
        self.view().map(f)
    }

    /// Combine the two arrays elementwise with `f` after broadcasting them to a
    /// common shape.
    pub fn elementwise_binary<F: Fn(T, T) -> T>(&self, rhs: &Array<T>, f: F) -> (r: Result<Array<T>, NumRsError>)
        requires
            self.wf(),
            rhs.wf(),
            forall|x: T, y: T| f.requires((x, y)),
        ensures
            match r {
                Ok(a) => {
                    let out = broadcast_shape_spec(self.shape_spec(), rhs.shape_spec());
                    &&& binary_ok(self.shape_spec(), rhs.shape_spec())
                    &&& a.wf()
                    &&& a.shape_spec() == out
                    &&& a.elems().len() == shape_size(out)
                    &&& forall|i: int|
                        0 <= i < shape_size(out) ==> f.ensures(
                            (lay_bcast(self.layout(), out, i), lay_bcast(rhs.layout(), out, i)),
                            #[trigger] a.elems()[i],
                        )
                },
                Err(e) => binary_error(self.shape_spec(), rhs.shape_spec(), e),
            },
    {
        self.view().elementwise_binary(&rhs.view(), f)
    }

    /// The element type of the array.
    pub fn dtype(&self) -> (r: DTypeKind)
        where T: DType,
        ensures
            r == T::KIND,
    {
        T::KIND
    }

    /// The elements converted to another element type, as Rust's `as` casts do.
    pub fn astype<U: DType>(&self) -> (r: Result<Array<U>, NumRsError>)
        where T: CastElement<U>,
        requires
            self.wf(),
        ensures
            match r {
                Ok(a) => {
                    &&& a.wf()
                    &&& a.shape_spec() == self.shape_spec()
                    &&& a.elems() == Seq::new(self.elems().len(), |i: int| self.elems()[i].cast_spec())
                },
                Err(e) => false,
            },
    {
        self.view().astype()
    }
}

impl<'a, T: Copy> ArrayView<'a, T> {
    /// The element type of the view.
    pub fn dtype(&self) -> (r: DTypeKind)
        where T: DType,
        ensures
            r == T::KIND,
    {
        T::KIND
    }

    /// The elements converted to another element type, as Rust's `as` casts do.
    pub fn astype<U: DType>(&self) -> (r: Result<Array<U>, NumRsError>)
        where T: CastElement<U>,
        requires
            self.wf(),
        ensures
            match r {
                Ok(a) => {
                    &&& a.wf()
                    &&& a.shape_spec() == self.shape_spec()
                    &&& a.elems() == Seq::new(self.elems().len(), |i: int| self.elems()[i].cast_spec())
                },
                Err(e) => self.elems().len() > isize::MAX && e == NumRsError::ShapeOverflow,
            },
    {
        let r = self.map(|x: T| -> (y: U) ensures y == x.cast_spec() { x.cast() });
        match r {
            Ok(a) => {
                assert(a.elems() =~= Seq::new(self.elems().len(), |i: int| self.elems()[i].cast_spec()));
                Ok(a)
            },
            Err(e) => Err(e),
        }
    }
}

impl<T: Ordered> Array<T> {
    /// Elementwise equality of the broadcast arrays.
    pub fn eq_elem(&self, rhs: &Array<T>) -> (r: Result<Array<bool>, NumRsError>)
        requires
            self.wf(),
            rhs.wf(),
        ensures
            binary_result(self.layout(), rhs.layout(), r, |x: T, y: T| x == y),
    {
        self.view().eq_elem(&rhs.view())
    }

    /// The smallest element; `EmptyReduction` for an empty array.
    pub fn min_all(&self) -> (r: Result<T, NumRsError>)
        requires
            self.wf(),
        ensures
            match r {
                Ok(v) => self.elems().len() > 0 && v == self.elems()[best_index(self.elems(), true)],
                Err(e) => self.elems().len() == 0 && e == NumRsError::EmptyReduction,
            },
    {
        self.view().min_all()
    }

    /// The largest element; `EmptyReduction` for an empty array.
    pub fn max_all(&self) -> (r: Result<T, NumRsError>)
        requires
            self.wf(),
        ensures
            match r {
                Ok(v) => self.elems().len() > 0 && v == self.elems()[best_index(self.elems(), false)],
                Err(e) => self.elems().len() == 0 && e == NumRsError::EmptyReduction,
            },
    {
        self.view().max_all()
    }

    /// Row-major position of the first largest element; `EmptyReduction` for an empty array.
    pub fn argmax(&self) -> (r: Result<usize, NumRsError>)
        requires
            self.wf(),
        ensures
            match r {
                Ok(k) => self.elems().len() > 0 && k == best_index(self.elems(), false),
                Err(e) => self.elems().len() == 0 && e == NumRsError::EmptyReduction,
            },
    {
        self.view().argmax()
    }

    /// Row-major position of the first smallest element; `EmptyReduction` for an empty array.
    pub fn argmin(&self) -> (r: Result<usize, NumRsError>)
        requires
            self.wf(),
        ensures
            match r {
                Ok(k) => self.elems().len() > 0 && k == best_index(self.elems(), true),
                Err(e) => self.elems().len() == 0 && e == NumRsError::EmptyReduction,
            },
    {
        self.view().argmin()
    }
}

impl<T: Scalar> Array<T> {
    /// Elementwise sum of the broadcast arrays; integers wrap around on overflow.
    pub fn add(&self, rhs: &Array<T>) -> (r: Result<Array<T>, NumRsError>)
        requires
            self.wf(),
            rhs.wf(),
        ensures
            binary_result(self.layout(), rhs.layout(), r, |x: T, y: T| T::spec_add(x, y)),
    {
        self.view().add(&rhs.view())
    }

    /// Elementwise difference of the broadcast arrays; integers wrap around on overflow.
    pub fn sub(&self, rhs: &Array<T>) -> (r: Result<Array<T>, NumRsError>)
        requires
            self.wf(),
            rhs.wf(),
        ensures
            binary_result(self.layout(), rhs.layout(), r, |x: T, y: T| T::spec_sub(x, y)),
    {
        self.view().sub(&rhs.view())
    }

    /// Elementwise product of the broadcast arrays; integers wrap around on overflow.
    pub fn mul(&self, rhs: &Array<T>) -> (r: Result<Array<T>, NumRsError>)
        requires
            self.wf(),
            rhs.wf(),
        ensures
            binary_result(self.layout(), rhs.layout(), r, |x: T, y: T| T::spec_mul(x, y)),
    {
        self.view().mul(&rhs.view())
    }

    /// Elementwise quotient of the broadcast arrays, rounded toward zero.
    pub fn div(&self, rhs: &Array<T>) -> (r: Result<Array<T>, NumRsError>)
        requires
            self.wf(),
            rhs.wf(),
            divisible(self.layout(), rhs.layout()),
        ensures
            binary_result(self.layout(), rhs.layout(), r, |x: T, y: T| quotient(x, y)),
    {
        self.view().div(&rhs.view())
    }

    /// Wrapping sum of the elementwise sums of the broadcast arrays.
    pub fn add_sum(&self, rhs: &Array<T>) -> (r: Result<T, NumRsError>)
        requires
            self.wf(),
            rhs.wf(),
        ensures
            match r {
                Ok(v) => {
                    let out = broadcast_shape_spec(self.shape_spec(), rhs.shape_spec());
                    &&& binary_ok(self.shape_spec(), rhs.shape_spec())
                    &&& v == wsum(
                        Seq::new(
                            shape_size(out) as nat,
                            |i: int| T::spec_add(lay_bcast(self.layout(), out, i), lay_bcast(rhs.layout(), out, i)),
                        ),
                    )
                },
                Err(e) => binary_error(self.shape_spec(), rhs.shape_spec(), e),
            },
    {
        let lv = self.view();
        let rv = rhs.view();
        let r = lv.add_sum(&rv);
        proof {
            let out = broadcast_shape_spec(self.shape_spec(), rhs.shape_spec());
            assert(Seq::new(shape_size(out) as nat, |i: int| T::spec_add(lv.bcast(out, i), rv.bcast(out, i))) =~= Seq::new(
                shape_size(out) as nat,
                |i: int| T::spec_add(lay_bcast(self.layout(), out, i), lay_bcast(rhs.layout(), out, i)),
            ));
        }
        r
    }

    /// Sum, wrapping on overflow, of `f` applied to the broadcast arrays.
    pub fn elementwise_binary_sum<F: Fn(T, T) -> T>(&self, rhs: &Array<T>, f: F) -> (r: Result<T, NumRsError>)
        requires
            self.wf(),
            rhs.wf(),
            forall|x: T, y: T| f.requires((x, y)),
        ensures
            match r {
                Ok(v) => {
                    let out = broadcast_shape_spec(self.shape_spec(), rhs.shape_spec());
                    &&& binary_ok(self.shape_spec(), rhs.shape_spec())
                    &&& exists|s: Seq<T>|
                        s.len() == shape_size(out) && v == wsum(s) && (forall|i: int|
                            0 <= i < s.len() ==> f.ensures(
                                (lay_bcast(self.layout(), out, i), lay_bcast(rhs.layout(), out, i)),
                                #[trigger] s[i],
                            ))
                },
                Err(e) => binary_error(self.shape_spec(), rhs.shape_spec(), e),
            },
    {
        self.view().elementwise_binary_sum(&rhs.view(), f)
    }

    /// Wrapping sum of all elements (0 for an empty array).
    pub fn sum_all(&self) -> (r: Result<T, NumRsError>)
        requires
            self.wf(),
        ensures
            r == Ok::<T, NumRsError>(wsum(self.elems())),
    {
        self.view().sum_all()
    }

    /// Wrapping product of all elements (1 for an empty array).
    pub fn prod_all(&self) -> (r: Result<T, NumRsError>)
        requires
            self.wf(),
        ensures
            r == Ok::<T, NumRsError>(wprod(self.elems())),
    {
        self.view().prod_all()
    }

    /// Wrapping sums along `axis` (negative counts from the end).
    pub fn sum_axis(&self, axis: isize) -> (r: Result<Array<T>, NumRsError>)
        requires
            self.wf(),
        ensures
            match r {
                Ok(a) => {
                    let ax = norm_axis(axis, self.shape_spec().len() as int);
                    let out = self.shape_spec().remove(ax);
                    &&& 0 <= ax < self.shape_spec().len()
                    &&& fits_array(out)
                    &&& a.wf()
                    &&& a.shape_spec() == out
                    &&& a.elems().len() == shape_size(out)
                    &&& forall|o: int|
                        0 <= o < shape_size(out) ==> #[trigger] a.elems()[o] == axis_sum(
                            self.layout(),
                            ax,
                            o,
                            self.shape_spec()[ax] as int,
                        )
                },
                Err(e) => {
                    let ax = norm_axis(axis, self.shape_spec().len() as int);
                    if !(0 <= ax < self.shape_spec().len()) {
                        e == (NumRsError::AxisOutOfBounds { axis, ndim: self.shape_spec().len() as usize })
                    } else {
                        !fits_array(self.shape_spec().remove(ax)) && e == NumRsError::ShapeOverflow
                    }
                },
            },
    {
        self.view().sum_axis(axis)
    }

    /// Matrix product of two 2-D arrays.
    pub fn dot2d(&self, rhs: &Array<T>) -> (r: Result<Array<T>, NumRsError>)
        requires
            self.wf(),
            rhs.wf(),
        ensures
            matrix_product_result(self.layout(), rhs.layout(), false, r),
    {
        self.view().dot2d(&rhs.view())
    }

    /// Inner product of the rows of two 2-D arrays.
    pub fn inner2d(&self, rhs: &Array<T>) -> (r: Result<Array<T>, NumRsError>)
        requires
            self.wf(),
            rhs.wf(),
        ensures
            matrix_product_result(self.layout(), rhs.layout(), true, r),
    {
        self.view().inner2d(&rhs.view())
    }

    /// NumPy `matmul`; see `ArrayView::matmul`.
    pub fn matmul(&self, rhs: &Array<T>) -> (r: Result<Array<T>, NumRsError>)
        requires
            self.wf(),
            rhs.wf(),
        ensures
            matmul_result(self.layout(), rhs.layout(), r),
    {
        self.view().matmul(&rhs.view())
    }

    /// Tensor contraction over paired axes; see `ArrayView::tensordot_axes`.
    pub fn tensordot_axes(&self, rhs: &Array<T>, left_axes: &[isize], right_axes: &[isize]) -> (r: Result<
        Array<T>,
        NumRsError,
    >)
        requires
            self.wf(),
            rhs.wf(),
        ensures
            tensordot_result(self.layout(), rhs.layout(), left_axes@, right_axes@, r),
    {
        self.view().tensordot_axes(&rhs.view(), left_axes, right_axes)
    }
}

impl Array<bool> {
    /// Elementwise negation.
    pub fn logical_not(&self) -> (r: Result<Array<bool>, NumRsError>)
        requires
            self.wf(),
        ensures
            match r {
                Ok(a) => {
                    &&& a.wf()
                    &&& a.shape_spec() == self.shape_spec()
                    &&& a.elems().len() == self.elems().len()
                    &&& forall|i: int| 0 <= i < self.elems().len() ==> #[trigger] a.elems()[i] == !self.elems()[i]
                },
                Err(e) => false,
            },
    {
        self.view().logical_not()
    }

    /// Elementwise conjunction of the broadcast arrays.
    pub fn logical_and(&self, rhs: &Array<bool>) -> (r: Result<Array<bool>, NumRsError>)
        requires
            self.wf(),
            rhs.wf(),
        ensures
            binary_result(self.layout(), rhs.layout(), r, |x: bool, y: bool| x && y),
    {
        self.view().logical_and(&rhs.view())
    }

    /// Elementwise disjunction of the broadcast arrays.
    pub fn logical_or(&self, rhs: &Array<bool>) -> (r: Result<Array<bool>, NumRsError>)
        requires
            self.wf(),
            rhs.wf(),
        ensures
            binary_result(self.layout(), rhs.layout(), r, |x: bool, y: bool| x || y),
    {
        self.view().logical_or(&rhs.view())
    }

    /// Whether every element is true (true for an empty array).
    pub fn prod_all(&self) -> (r: Result<bool, NumRsError>)
        requires
            self.wf(),
        ensures
            r == Ok::<bool, NumRsError>(all_true(self.elems())),
    {
        match self.uniform_value() {
            Some(v) => {
                let empty = self.is_empty();
                proof {
                    if v && !empty {
                        assert(all_true(self.elems()));
                    }
                    if !v && !empty {
                        assert(!self.elems()[0]);
                    }
                }
                Ok(v || empty)
            },
            None => self.view().prod_all(),
        }
    }

    /// For each axis, the coordinates along that axis of the true elements,
    /// listed in row-major order.
    pub fn nonzero(&self) -> (r: Result<Vec<Array<i64>>, NumRsError>)
        requires
            self.wf(),
        ensures
            match r {
                Ok(v) => v@.len() == self.shape_spec().len() && forall|d: int|
                    0 <= d < v@.len() ==> {
                        &&& (#[trigger] v@[d]).wf()
                        &&& v@[d].shape_spec() == seq![true_positions(self.elems()).len() as usize]
                        &&& v@[d].elems() == axis_coords(self.shape_spec(), true_positions(self.elems()), d)
                    },
                Err(e) => false,
            },
    {
        proof {
            lemma_true_positions(self.elems());
        }
        self.view().nonzero()
    }

    /// Pick the element of `true_values` where the condition holds and that of
    /// `false_values` elsewhere, after broadcasting all three to one shape.
    pub fn where_select<T: Copy>(&self, true_values: &Array<T>, false_values: &Array<T>) -> (r: Result<
        Array<T>,
        NumRsError,
    >)
        requires
            self.wf(),
            true_values.wf(),
            false_values.wf(),
        ensures
            where_result(self.layout(), true_values.layout(), false_values.layout(), r),
    {
        self.view().where_select(&true_values.view(), &false_values.view())
    }
}

impl Array<i64> {
    /// The one-dimensional array `0, 1, ..., stop - 1` (empty when `stop <= 0`).
    pub fn arange(stop: i64) -> (r: Self)
        requires
            stop <= isize::MAX,
        ensures
            r.wf(),
            r.shape_spec() == seq![(if stop > 0 { stop } else { 0 }) as usize],
            r.elems() == Seq::new((if stop > 0 { stop } else { 0 }) as nat, |i: int| i as i64),
    {
        let n: usize = if stop > 0 { stop as usize } else { 0 };
        let mut data: Vec<i64> = Vec::new();
        let mut i: usize = 0;
        while i < n
            invariant
                n <= isize::MAX,
                i <= n,
                data@ == Seq::new(i as nat, |k: int| k as i64),
            decreases n - i,
        {
            data.push(i as i64);
            i += 1;
            assert(data@ =~= Seq::new(i as nat, |k: int| k as i64));
        }
        let mut shape: Vec<usize> = Vec::new();
        shape.push(n);
        proof {
            assert(shape@ =~= seq![n]);
            lemma_vector_shape(n);
        }
        Array::from_vec_trusted(shape, data)
    }
}

impl<T: Scalar> Array<T> {
    /// An array of the given shape filled with zeros.
    pub fn zeros(shape: Vec<usize>) -> (r: Result<Self, NumRsError>)
        requires
            shape@.len() < isize::MAX,
            forall|k: int| 0 <= k < shape@.len() ==> #[trigger] shape@[k] <= isize::MAX,
        ensures
            match r {
                Ok(a) => a.wf() && fits_array(shape@) && a.shape_spec() == shape@ && a.elems() == Seq::new(
                    shape_size(shape@) as nat,
                    |i: int| T::spec_zero(),
                ),
                Err(e) => !fits_array(shape@) && e == NumRsError::ShapeOverflow,
            },
    {
        Array::full(shape, T::zero())
    }
}

/// `v` is a value `f` can return for the multi-index of row-major position
/// `i` within `shape`.
pub open spec fn made_at<T, F: Fn(&[usize]) -> T>(f: F, shape: Seq<usize>, i: int, v: T) -> bool {
    exists|idx: &[usize]| to_ints(idx@) == unravel(shape, i) && #[trigger] f.ensures((idx,), v)
}

impl<T> Array<T> {
    /// An array of the given shape whose element at each multi-index is `f`
    /// of that index.
    pub fn from_shape_fn<F: Fn(&[usize]) -> T>(shape: Vec<usize>, f: F) -> (r: Result<Self, NumRsError>)
        requires
            shape@.len() < isize::MAX,
            forall|k: int| 0 <= k < shape@.len() ==> #[trigger] shape@[k] <= isize::MAX,
            forall|idx: &[usize]| #[trigger] f.requires((idx,)),
        ensures
            match r {
                Ok(a) => {
                    &&& a.wf()
                    &&& fits_array(shape@)
                    &&& a.shape_spec() == shape@
                    &&& a.elems().len() == shape_size(shape@)
                    &&& forall|i: int| 0 <= i < shape_size(shape@) ==> made_at(f, shape@, i, #[trigger] a.elems()[i])
                },
                Err(e) => !fits_array(shape@) && e == NumRsError::ShapeOverflow,
            },
    {
        let len = size_of_shape(&shape)?;
        if len > isize::MAX as usize {
            return Err(NumRsError::ShapeOverflow);
        }
        let mut data: Vec<T> = Vec::new();
        let mut i: usize = 0;
        while i < len
            invariant
                len == shape_size(shape@),
                forall|idx: &[usize]| #[trigger] f.requires((idx,)),
                i <= len,
                data@.len() == i,
                forall|j: int| 0 <= j < i ==> made_at(f, shape@, j, #[trigger] data@[j]),
            decreases len - i,
        {
            let idx = unravel_index(&shape, i);
            let sl = idx.as_slice();
            let v = f(sl);
            let ghost prev = data@;
            data.push(v);
            proof {
                assert(to_ints(sl@) == unravel(shape@, i as int));
                assert forall|j: int| 0 <= j < i + 1 implies made_at(f, shape@, j, #[trigger] data@[j]) by {
                    if j == i {
                        assert(f.ensures((sl,), data@[j]));
                    } else {
                        assert(prev[j] == data@[j]);
                        assert(made_at(f, shape@, j, prev[j]));
                    }
                }
            }
            i += 1;
        }
        Ok(Array::from_vec_trusted(shape, data))
    }
}

} // verus!
