use vstd::prelude::*;
use crate::numrs::error::NumRsError;
use crate::display::{list_text, push_str, push_usize_list, string_from_chars, usize_ints};
use crate::numrs::array::{Array, ArrayView, broadcast_to_result, copy_usizes};
use crate::numrs::element::{Scalar, Ordered};
use crate::numrs::layout::{
    broadcast_source_index, broadcasts_to, dot, in_bounds, unravel, lemma_unravel_in_bounds, lemma_broadcast_result, lemma_positive_size_dims,
    lemma_bcast_le_broadcasts_to, lemma_bcast_le_trans, bcast_le, broadcast_strides_spec, lemma_broadcast_offsets_within,
    lemma_broadcast_dot, offset_for_index, to_ints, broadcast_strides, unravel_index,
};
use crate::numrs::shape::{
    broadcast_shape, broadcast_shape_spec, shapes_broadcast, dim_right, shape_size, size_fits, size_of_shape, lemma_shape_size_nonneg,
    fits_or_empty,
};

verus! {

/// The element that broadcasting the layout (`data`, `shape`, `strides`,
/// `offset`) to shape `target` places at row-major position `i` of the target.
pub open spec fn bcast_elem<T>(
    data: Seq<T>,
    shape: Seq<usize>,
    strides: Seq<isize>,
    offset: int,
    target: Seq<usize>,
    i: int,
) -> T {
    data[offset + dot(broadcast_source_index(shape, target, unravel(target, i)), strides)]
}

/// A shape that an owned array can have: its size fits in `usize` and its
/// element count in `isize`.
pub open spec fn fits_array(shape: Seq<usize>) -> bool {
    size_fits(shape) && shape_size(shape) <= isize::MAX
}

/// Two operand shapes that an elementwise kernel accepts.
pub open spec fn binary_ok(left: Seq<usize>, right: Seq<usize>) -> bool {
    shapes_broadcast(left, right) && fits_array(broadcast_shape_spec(left, right))
}

/// The error an elementwise kernel reports for operand shapes it refuses.
pub open spec fn binary_error(left: Seq<usize>, right: Seq<usize>, e: NumRsError) -> bool {
    if !shapes_broadcast(left, right) {
        e matches NumRsError::BroadcastMismatch { left: l, right: r } && l@ == left && r@ == right
    } else {
        !fits_array(broadcast_shape_spec(left, right)) && e == NumRsError::ShapeOverflow
    }
}

/// Shapes whose rank and dimensions all fit in `isize`.
pub open spec fn dims_bounded(shape: Seq<usize>) -> bool {
    shape.len() < isize::MAX && forall|k: int| 0 <= k < shape.len() ==> #[trigger] shape[k] <= isize::MAX
}

impl<'a, T> ArrayView<'a, T> {
    /// The element broadcasting the view to `target` puts at row-major position `i`.
    pub open spec fn bcast(&self, target: Seq<usize>, i: int) -> T {
        bcast_elem(self.data_spec(), self.shape_spec(), self.strides_spec(), self.offset_spec(), target, i)
    }
}

impl<T> Array<T> {
    /// The element broadcasting the array to `target` puts at row-major position `i`.
    pub open spec fn bcast(&self, target: Seq<usize>, i: int) -> T {
        bcast_elem(self.elems(), self.shape_spec(), self.strides_spec(), 0, target, i)
    }
}

/// Broadcasting shapes whose dimensions fit in `isize` gives such a shape.
pub proof fn lemma_broadcast_dims_bounded(left: Seq<usize>, right: Seq<usize>)
    requires
        dims_bounded(left),
        dims_bounded(right),
        shapes_broadcast(left, right),
    ensures
        dims_bounded(broadcast_shape_spec(left, right)),
{
    let out = broadcast_shape_spec(left, right);
    lemma_broadcast_result(left, right);
    assert forall|k: int| 0 <= k < out.len() implies #[trigger] out[k] <= isize::MAX by {
        if out[k] != 1 {
            if exists|j: int| 0 <= j < left.len() && out[k] == left[j] {
                let j = choose|j: int| 0 <= j < left.len() && out[k] == left[j];
                assert(left[j] <= isize::MAX);
            } else {
                let j = choose|j: int| 0 <= j < right.len() && out[k] == right[j];
                assert(right[j] <= isize::MAX);
            }
        }
    }
}

/// The result shape of an elementwise kernel on operands of shapes `left` and `right`.
pub(crate) fn binary_shape(left: &[usize], right: &[usize]) -> (r: Result<Vec<usize>, NumRsError>)
    requires
        dims_bounded(left@),
        dims_bounded(right@),
    ensures
        match r {
            Ok(out) => binary_ok(left@, right@) && out@ == broadcast_shape_spec(left@, right@) && dims_bounded(out@),
            Err(e) => binary_error(left@, right@, e),
        },
{
    let out = broadcast_shape(left, right)?;
    proof {
        lemma_broadcast_dims_bounded(left@, right@);
    }
    match size_of_shape(&out) {
        Ok(n) => {
            if n > isize::MAX as usize {
                return Err(NumRsError::ShapeOverflow);
            }
        },
        Err(_) => {
            return Err(NumRsError::ShapeOverflow);
        },
    }
    Ok(out)
}

impl<'a, T: Copy> ArrayView<'a, T> {
    /// The view broadcast to `target`, as a view whose row-major elements are
    /// the broadcast elements.
    pub(crate) fn broadcast_operand(&self, target: &[usize]) -> (r: ArrayView<'a, T>)
        requires
            self.wf(),
            broadcasts_to(self.shape_spec(), target@),
            fits_or_empty(target@),
            dims_bounded(target@),
        ensures
            r.wf(),
            r.shape_spec() == target@,
            r.elems().len() == shape_size(target@),
            forall|i: int| 0 <= i < shape_size(target@) ==> #[trigger] r.elems()[i] == self.bcast(target@, i),
    {
        let res = self.broadcast_to(target);
        let v = res.unwrap();
        proof {
            lemma_shape_size_nonneg(target@);
            assert forall|i: int| 0 <= i < shape_size(target@) implies #[trigger] v.elems()[i] == self.bcast(target@, i) by {
                lemma_positive_size_dims(target@);
                lemma_unravel_in_bounds(target@, i);
                assert(in_bounds(unravel(target@, i), v.shape_spec()));
            }
        }
        v
    }

    /// Apply `f` to each element, keeping the shape.
    pub fn map<U, F: Fn(T) -> U>(&self, f: F) -> (r: Result<Array<U>, NumRsError>)
        requires
            self.wf(),
            forall|x: T| f.requires((x,)),
        ensures
            match r {
                Ok(a) => {
                    &&& a.wf()
                    &&& a.shape_spec() == self.shape_spec()
                    &&& a.elems().len() == self.elems().len()
                    &&& forall|i: int| 0 <= i < self.elems().len() ==> f.ensures((self.elems()[i],), #[trigger] a.elems()[i])
                },
                Err(e) => self.elems().len() > isize::MAX && e == NumRsError::ShapeOverflow,
            },
    {
        let n = self.len();
        if n > isize::MAX as usize {
            return Err(NumRsError::ShapeOverflow);
        }
        let mut out: Vec<U> = Vec::new();
        let mut i: usize = 0;
        while i < n
            invariant
                self.wf(),
                n == self.elems().len(),
                i <= n,
                out@.len() == i,
                forall|x: T| f.requires((x,)),
                forall|j: int| 0 <= j < i ==> f.ensures((self.elems()[j],), #[trigger] out@[j]),
            decreases n - i,
        {
            let v = f(self.elem(i));
            out.push(v);
            i += 1;
        }
        proof {
            lemma_shape_size_nonneg(self.shape_spec());
        }
        Ok(Array::from_vec_trusted(copy_usizes(self.shape()), out))
    }

    /// Combine the two operands elementwise with `f` after broadcasting them
    /// to a common shape.
    pub fn elementwise_binary<F: Fn(T, T) -> T>(&self, rhs: &ArrayView<'_, T>, f: F) -> (r: Result<
        Array<T>,
        NumRsError,
    >)
        requires
            self.wf(),
            rhs.wf(),
            forall|x: T, y: T| f.requires((x, y)),
        ensures
            match r {
                Ok(a) => {
                    let out = broadcast_shape_spec(self.shape_spec(), rhs.shape_spec());
                    &&& binary_ok(self.shape_spec(), rhs.shape_spec())
                    &&& a.wf()
                    &&& a.shape_spec() == out
                    &&& a.elems().len() == shape_size(out)
                    &&& forall|i: int|
                        0 <= i < shape_size(out) ==> f.ensures(
                            (self.bcast(out, i), rhs.bcast(out, i)),
                            #[trigger] a.elems()[i],
                        )
                },
                Err(e) => binary_error(self.shape_spec(), rhs.shape_spec(), e),
            },
    {
        let out = binary_shape(self.shape(), rhs.shape())?;
        proof {
            lemma_broadcast_result(self.shape_spec(), rhs.shape_spec());
            lemma_bcast_le_broadcasts_to(self.shape_spec(), out@);
            lemma_bcast_le_broadcasts_to(rhs.shape_spec(), out@);
        }
        let lv = self.broadcast_operand(&out);
        let rv = rhs.broadcast_operand(&out);
        let n = lv.len();
        let mut data: Vec<T> = Vec::new();
        let mut i: usize = 0;
        while i < n
            invariant
                lv.wf(),
                rv.wf(),
                n == shape_size(out@),
                lv.elems().len() == n,
                rv.elems().len() == n,
                forall|j: int| 0 <= j < n ==> #[trigger] lv.elems()[j] == self.bcast(out@, j),
                forall|j: int| 0 <= j < n ==> #[trigger] rv.elems()[j] == rhs.bcast(out@, j),
                forall|x: T, y: T| f.requires((x, y)),
                i <= n,
                data@.len() == i,
                forall|j: int| 0 <= j < i ==> f.ensures((self.bcast(out@, j), rhs.bcast(out@, j)), #[trigger] data@[j]),
            decreases n - i,
        {
            let x = lv.elem(i);
            let y = rv.elem(i);
            let v = f(x, y);
            data.push(v);
            i += 1;
        }
        Ok(Array::from_vec_trusted(out, data))
    }
}


/// The element that broadcasting layout `l` to shape `target` places at
/// row-major position `i`.
pub open spec fn lay_bcast<T>(l: (Seq<T>, Seq<usize>, Seq<isize>, int), target: Seq<usize>, i: int) -> T {
    bcast_elem(l.0, l.1, l.2, l.3, target, i)
}

/// What an elementwise kernel applying `op` to the broadcast operands with
/// layouts `l` and `r` returns.
pub open spec fn binary_result<T, U>(
    l: (Seq<T>, Seq<usize>, Seq<isize>, int),
    r: (Seq<T>, Seq<usize>, Seq<isize>, int),
    res: Result<Array<U>, NumRsError>,
    op: spec_fn(T, T) -> U,
) -> bool {
    match res {
        Ok(a) => {
            let out = broadcast_shape_spec(l.1, r.1);
            &&& binary_ok(l.1, r.1)
            &&& a.wf()
            &&& a.shape_spec() == out
            &&& a.elems().len() == shape_size(out)
            &&& forall|i: int| 0 <= i < shape_size(out) ==> #[trigger] a.elems()[i] == op(lay_bcast(l, out, i), lay_bcast(r, out, i))
        },
        Err(e) => binary_error(l.1, r.1, e),
    }
}

impl<'a, T: Copy> ArrayView<'a, T> {
    /// Broadcast the operands to a common shape and combine them with `op`,
    /// one of the kernels below.
    fn zip_with(&self, rhs: &ArrayView<'_, T>, op: BinaryOp) -> (r: Result<Array<T>, NumRsError>)
        where T: Scalar,
        requires
            self.wf(),
            rhs.wf(),
        ensures
            binary_result(self.layout(), rhs.layout(), r, |x: T, y: T| op.apply_spec(x, y)),
    {
        let out = binary_shape(self.shape(), rhs.shape())?;
        proof {
            lemma_broadcast_result(self.shape_spec(), rhs.shape_spec());
            lemma_bcast_le_broadcasts_to(self.shape_spec(), out@);
            lemma_bcast_le_broadcasts_to(rhs.shape_spec(), out@);
        }
        let lv = self.broadcast_operand(&out);
        let rv = rhs.broadcast_operand(&out);
        let n = lv.len();
        let mut data: Vec<T> = Vec::new();
        let mut i: usize = 0;
        while i < n
            invariant
                lv.wf(),
                rv.wf(),
                n == shape_size(out@),
                lv.elems().len() == n,
                rv.elems().len() == n,
                forall|j: int| 0 <= j < n ==> #[trigger] lv.elems()[j] == self.bcast(out@, j),
                forall|j: int| 0 <= j < n ==> #[trigger] rv.elems()[j] == rhs.bcast(out@, j),
                i <= n,
                data@.len() == i,
                forall|j: int| 0 <= j < i ==> #[trigger] data@[j] == op.apply_spec(self.bcast(out@, j), rhs.bcast(out@, j)),
            decreases n - i,
        {
            let x = lv.elem(i);
            let y = rv.elem(i);
            data.push(op.apply(x, y));
            i += 1;
        }
        Ok(Array::from_vec_trusted(out, data))
    }
}

/// The quotient of `x` by `y`, rounded toward zero, where it is defined.
pub open spec fn quotient<T: Scalar>(x: T, y: T) -> T {
    match T::spec_quot(x, y) {
        Some(q) => q,
        None => x,
    }
}

/// Every pair of broadcast elements of operands with layouts `l` and `r` can
/// be divided: no divisor is zero and no quotient leaves the type's range.
pub open spec fn divisible<T: Scalar>(l: (Seq<T>, Seq<usize>, Seq<isize>, int), r: (Seq<T>, Seq<usize>, Seq<isize>, int)) -> bool {
    binary_ok(l.1, r.1) ==> forall|i: int|
        0 <= i < shape_size(broadcast_shape_spec(l.1, r.1)) ==> (#[trigger] T::spec_quot(
            lay_bcast(l, broadcast_shape_spec(l.1, r.1), i),
            lay_bcast(r, broadcast_shape_spec(l.1, r.1), i),
        )) is Some
}

impl<'a, T: Scalar> ArrayView<'a, T> {
    /// Elementwise quotient of the broadcast operands, rounded toward zero.
    pub fn div(&self, rhs: &ArrayView<'_, T>) -> (r: Result<Array<T>, NumRsError>)
        requires
            self.wf(),
            rhs.wf(),
            divisible(self.layout(), rhs.layout()),
        ensures
            binary_result(self.layout(), rhs.layout(), r, |x: T, y: T| quotient(x, y)),
    {
        let out = binary_shape(self.shape(), rhs.shape())?;
        proof {
            lemma_broadcast_result(self.shape_spec(), rhs.shape_spec());
            lemma_bcast_le_broadcasts_to(self.shape_spec(), out@);
            lemma_bcast_le_broadcasts_to(rhs.shape_spec(), out@);
        }
        let lv = self.broadcast_operand(&out);
        let rv = rhs.broadcast_operand(&out);
        let n = lv.len();
        let mut data: Vec<T> = Vec::new();
        let mut i: usize = 0;
        while i < n
            invariant
                lv.wf(),
                rv.wf(),
                n == shape_size(out@),
                out@ == broadcast_shape_spec(self.shape_spec(), rhs.shape_spec()),
                binary_ok(self.shape_spec(), rhs.shape_spec()),
                divisible(self.layout(), rhs.layout()),
                lv.elems().len() == n,
                rv.elems().len() == n,
                forall|j: int| 0 <= j < n ==> #[trigger] lv.elems()[j] == self.bcast(out@, j),
                forall|j: int| 0 <= j < n ==> #[trigger] rv.elems()[j] == rhs.bcast(out@, j),
                i <= n,
                data@.len() == i,
                forall|j: int| 0 <= j < i ==> #[trigger] data@[j] == quotient(self.bcast(out@, j), rhs.bcast(out@, j)),
            decreases n - i,
        {
            let x = lv.elem(i);
            let y = rv.elem(i);
            let ghost l = self.layout();
            let ghost rl = rhs.layout();
            assert(T::spec_quot(
                lay_bcast(l, broadcast_shape_spec(l.1, rl.1), i as int),
                lay_bcast(rl, broadcast_shape_spec(l.1, rl.1), i as int),
            ) is Some);
            let q = T::checked_quot(x, y).unwrap();
            data.push(q);
            i += 1;
        }
        Ok(Array::from_vec_trusted(out, data))
    }
}

/// The integer kernels that combine two elements.
#[derive(Clone, Copy, PartialEq, Eq, Structural)]
pub enum BinaryOp {
    Add,
    Sub,
    Mul,
}

impl BinaryOp {
    pub open spec fn apply_spec<T: Scalar>(self, x: T, y: T) -> T {
        match self {
            BinaryOp::Add => T::spec_add(x, y),
            BinaryOp::Sub => T::spec_sub(x, y),
            BinaryOp::Mul => T::spec_mul(x, y),
        }
    }

    pub fn apply<T: Scalar>(self, x: T, y: T) -> (r: T)
        ensures
            r == self.apply_spec(x, y),
    {
        match self {
            BinaryOp::Add => T::add_wrap(x, y),
            BinaryOp::Sub => T::sub_wrap(x, y),
            BinaryOp::Mul => T::mul_wrap(x, y),
        }
    }
}

impl<'a, T: Scalar> ArrayView<'a, T> {
    /// Elementwise sum of the broadcast operands; integers wrap around on overflow.
    pub fn add(&self, rhs: &ArrayView<'_, T>) -> (r: Result<Array<T>, NumRsError>)
        requires
            self.wf(),
            rhs.wf(),
        ensures
            binary_result(self.layout(), rhs.layout(), r, |x: T, y: T| T::spec_add(x, y)),
    {
        self.zip_with(rhs, BinaryOp::Add)
    }

    /// Elementwise difference of the broadcast operands; integers wrap around on overflow.
    pub fn sub(&self, rhs: &ArrayView<'_, T>) -> (r: Result<Array<T>, NumRsError>)
        requires
            self.wf(),
            rhs.wf(),
        ensures
            binary_result(self.layout(), rhs.layout(), r, |x: T, y: T| T::spec_sub(x, y)),
    {
        self.zip_with(rhs, BinaryOp::Sub)
    }

    /// Elementwise product of the broadcast operands; integers wrap around on overflow.
    pub fn mul(&self, rhs: &ArrayView<'_, T>) -> (r: Result<Array<T>, NumRsError>)
        requires
            self.wf(),
            rhs.wf(),
        ensures
            binary_result(self.layout(), rhs.layout(), r, |x: T, y: T| T::spec_mul(x, y)),
    {
        self.zip_with(rhs, BinaryOp::Mul)
    }
}

impl<'a, T: Ordered> ArrayView<'a, T> {
    /// Elementwise equality of the broadcast operands.
    pub fn eq_elem(&self, rhs: &ArrayView<'_, T>) -> (r: Result<Array<bool>, NumRsError>)
        requires
            self.wf(),
            rhs.wf(),
        ensures
            binary_result(self.layout(), rhs.layout(), r, |x: T, y: T| x == y),
    {
        let out = binary_shape(self.shape(), rhs.shape())?;
        proof {
            lemma_broadcast_result(self.shape_spec(), rhs.shape_spec());
            lemma_bcast_le_broadcasts_to(self.shape_spec(), out@);
            lemma_bcast_le_broadcasts_to(rhs.shape_spec(), out@);
        }
        let lv = self.broadcast_operand(&out);
        let rv = rhs.broadcast_operand(&out);
        let n = lv.len();
        let mut data: Vec<bool> = Vec::new();
        let mut i: usize = 0;
        while i < n
            invariant
                lv.wf(),
                rv.wf(),
                n == shape_size(out@),
                lv.elems().len() == n,
                rv.elems().len() == n,
                forall|j: int| 0 <= j < n ==> #[trigger] lv.elems()[j] == self.bcast(out@, j),
                forall|j: int| 0 <= j < n ==> #[trigger] rv.elems()[j] == rhs.bcast(out@, j),
                i <= n,
                data@.len() == i,
                forall|j: int| 0 <= j < i ==> #[trigger] data@[j] == (self.bcast(out@, j) == rhs.bcast(out@, j)),
            decreases n - i,
        {
            let x = lv.elem(i);
            let y = rv.elem(i);
            data.push(T::equal(x, y));
            i += 1;
        }
        Ok(Array::from_vec_trusted(out, data))
    }
}

impl<'a> ArrayView<'a, bool> {
    /// Broadcast the operands and combine them with `&&` (when `conjunction`) or `||`.
    fn zip_logical(&self, rhs: &ArrayView<'_, bool>, conjunction: bool) -> (r: Result<Array<bool>, NumRsError>)
        requires
            self.wf(),
            rhs.wf(),
        ensures
            binary_result(self.layout(), rhs.layout(), r, |x: bool, y: bool| if conjunction { x && y } else { x || y }),
    {
        let out = binary_shape(self.shape(), rhs.shape())?;
        proof {
            lemma_broadcast_result(self.shape_spec(), rhs.shape_spec());
            lemma_bcast_le_broadcasts_to(self.shape_spec(), out@);
            lemma_bcast_le_broadcasts_to(rhs.shape_spec(), out@);
        }
        let lv = self.broadcast_operand(&out);
        let rv = rhs.broadcast_operand(&out);
        let n = lv.len();
        let mut data: Vec<bool> = Vec::new();
        let mut i: usize = 0;
        while i < n
            invariant
                lv.wf(),
                rv.wf(),
                n == shape_size(out@),
                lv.elems().len() == n,
                rv.elems().len() == n,
                forall|j: int| 0 <= j < n ==> #[trigger] lv.elems()[j] == self.bcast(out@, j),
                forall|j: int| 0 <= j < n ==> #[trigger] rv.elems()[j] == rhs.bcast(out@, j),
                i <= n,
                data@.len() == i,
                forall|j: int|
                    0 <= j < i ==> #[trigger] data@[j] == if conjunction {
                        self.bcast(out@, j) && rhs.bcast(out@, j)
                    } else {
                        self.bcast(out@, j) || rhs.bcast(out@, j)
                    },
            decreases n - i,
        {
            let x = lv.elem(i);
            let y = rv.elem(i);
            let v = if conjunction {
                x && y
            } else {
                x || y
            };
            data.push(v);
            i += 1;
        }
        Ok(Array::from_vec_trusted(out, data))
    }

    /// Elementwise negation.
    pub fn logical_not(&self) -> (r: Result<Array<bool>, NumRsError>)
        requires
            self.wf(),
        ensures
            match r {
                Ok(a) => {
                    &&& a.wf()
                    &&& a.shape_spec() == self.shape_spec()
                    &&& a.elems().len() == self.elems().len()
                    &&& forall|i: int| 0 <= i < self.elems().len() ==> #[trigger] a.elems()[i] == !self.elems()[i]
                },
                Err(e) => self.elems().len() > isize::MAX && e == NumRsError::ShapeOverflow,
            },
    {
        self.map(|x: bool| -> (y: bool) ensures y == !x { !x })
    }

    /// Elementwise conjunction of the broadcast operands.
    pub fn logical_and(&self, rhs: &ArrayView<'_, bool>) -> (r: Result<Array<bool>, NumRsError>)
        requires
            self.wf(),
            rhs.wf(),
        ensures
            binary_result(self.layout(), rhs.layout(), r, |x: bool, y: bool| x && y),
    {
        self.zip_logical(rhs, true)
    }

    /// Elementwise disjunction of the broadcast operands.
    pub fn logical_or(&self, rhs: &ArrayView<'_, bool>) -> (r: Result<Array<bool>, NumRsError>)
        requires
            self.wf(),
            rhs.wf(),
        ensures
            binary_result(self.layout(), rhs.layout(), r, |x: bool, y: bool| x || y),
    {
        self.zip_logical(rhs, false)
    }
}

/// The shape `where_select` broadcasts its three operands to.
pub open spec fn where_shape(cond: Seq<usize>, t: Seq<usize>, f: Seq<usize>) -> Seq<usize> {
    broadcast_shape_spec(broadcast_shape_spec(cond, t), f)
}

/// What `where_select` returns for a condition with layout `c` and operands
/// with layouts `t` and `f`.
pub open spec fn where_result<T>(
    c: (Seq<bool>, Seq<usize>, Seq<isize>, int),
    t: (Seq<T>, Seq<usize>, Seq<isize>, int),
    f: (Seq<T>, Seq<usize>, Seq<isize>, int),
    r: Result<Array<T>, NumRsError>,
) -> bool {
    let ct = broadcast_shape_spec(c.1, t.1);
    let out = where_shape(c.1, t.1, f.1);
    match r {
        Ok(a) => {
            &&& shapes_broadcast(c.1, t.1)
            &&& shapes_broadcast(ct, f.1)
            &&& fits_array(out)
            &&& a.wf()
            &&& a.shape_spec() == out
            &&& a.elems().len() == shape_size(out)
            &&& forall|i: int|
                0 <= i < shape_size(out) ==> #[trigger] a.elems()[i] == if lay_bcast(c, out, i) {
                    lay_bcast(t, out, i)
                } else {
                    lay_bcast(f, out, i)
                }
        },
        Err(e) => if !shapes_broadcast(c.1, t.1) {
            e matches NumRsError::BroadcastMismatch { left: l, right: r } && l@ == c.1 && r@ == t.1
        } else {
            binary_error(ct, f.1, e)
        },
    }
}

impl<'a> ArrayView<'a, bool> {
    /// Pick, after broadcasting all three operands to one shape, the element of
    /// `true_values` where the condition holds and that of `false_values` elsewhere.
    pub fn where_select<T: Copy>(&self, true_values: &ArrayView<'_, T>, false_values: &ArrayView<'_, T>) -> (r: Result<
        Array<T>,
        NumRsError,
    >)
        requires
            self.wf(),
            true_values.wf(),
            false_values.wf(),
        ensures
            where_result(self.layout(), true_values.layout(), false_values.layout(), r),
    {
        let ct = broadcast_shape(self.shape(), true_values.shape())?;
        proof {
            lemma_broadcast_dims_bounded(self.shape_spec(), true_values.shape_spec());
        }
        let out = binary_shape(&ct, false_values.shape())?;
        proof {
            lemma_broadcast_result(self.shape_spec(), true_values.shape_spec());
            lemma_broadcast_result(ct@, false_values.shape_spec());
            lemma_bcast_le_trans(self.shape_spec(), ct@, out@);
            lemma_bcast_le_trans(true_values.shape_spec(), ct@, out@);
            lemma_bcast_le_broadcasts_to(self.shape_spec(), out@);
            lemma_bcast_le_broadcasts_to(true_values.shape_spec(), out@);
            lemma_bcast_le_broadcasts_to(false_values.shape_spec(), out@);
        }
        let cv = self.broadcast_operand(&out);
        let tv = true_values.broadcast_operand(&out);
        let fv = false_values.broadcast_operand(&out);
        let n = cv.len();
        let mut data: Vec<T> = Vec::new();
        let mut i: usize = 0;
        while i < n
            invariant
                cv.wf(),
                tv.wf(),
                fv.wf(),
                n == shape_size(out@),
                cv.elems().len() == n,
                tv.elems().len() == n,
                fv.elems().len() == n,
                forall|j: int| 0 <= j < n ==> #[trigger] cv.elems()[j] == self.bcast(out@, j),
                forall|j: int| 0 <= j < n ==> #[trigger] tv.elems()[j] == true_values.bcast(out@, j),
                forall|j: int| 0 <= j < n ==> #[trigger] fv.elems()[j] == false_values.bcast(out@, j),
                i <= n,
                data@.len() == i,
                forall|j: int|
                    0 <= j < i ==> #[trigger] data@[j] == if self.bcast(out@, j) {
                        true_values.bcast(out@, j)
                    } else {
                        false_values.bcast(out@, j)
                    },
            decreases n - i,
        {
            let v = if cv.elem(i) {
                tv.elem(i)
            } else {
                fv.elem(i)
            };
            data.push(v);
            i += 1;
        }
        Ok(Array::from_vec_trusted(out, data))
    }
}

/// A layout as plain values: buffer, shape, strides and base offset.
pub open spec fn layout_at<T>(l: (Seq<T>, Seq<usize>, Seq<isize>, int), idx: Seq<int>) -> T {
    l.0[l.3 + dot(idx, l.2)]
}

impl<'a, T> ArrayView<'a, T> {
    /// The view's buffer, shape, strides and offset.
    pub open spec fn layout(&self) -> (Seq<T>, Seq<usize>, Seq<isize>, int) {
        (self.data_spec(), self.shape_spec(), self.strides_spec(), self.offset_spec())
    }
}

impl<T> Array<T> {
    /// The array's elements, shape and strides, with base offset 0.
    pub open spec fn layout(&self) -> (Seq<T>, Seq<usize>, Seq<isize>, int) {
        (self.elems(), self.shape_spec(), self.strides_spec(), 0)
    }
}

/// The leading (stacked) dimensions of a matrix operand: all but the last two.
pub open spec fn batch_dims(s: Seq<usize>) -> Seq<usize> {
    if s.len() >= 2 {
        s.take(s.len() - 2)
    } else {
        Seq::empty()
    }
}

/// Rows of the left operand (1 for a vector).
pub open spec fn mm_rows(s: Seq<usize>) -> usize {
    if s.len() >= 2 {
        s[s.len() - 2]
    } else {
        1
    }
}

/// The contracted length of the left operand: its last dimension.
pub open spec fn mm_inner_left(s: Seq<usize>) -> usize {
    s[s.len() - 1]
}

/// The contracted length of the right operand: its second-to-last dimension,
/// or its only one for a vector.
pub open spec fn mm_inner_right(s: Seq<usize>) -> usize {
    if s.len() >= 2 {
        s[s.len() - 2]
    } else {
        s[0]
    }
}

/// Columns of the right operand (1 for a vector).
pub open spec fn mm_cols(s: Seq<usize>) -> usize {
    if s.len() >= 2 {
        s[s.len() - 1]
    } else {
        1
    }
}

/// The broadcast stack shape of two matrix operands.
pub open spec fn mm_batch(ls: Seq<usize>, rs: Seq<usize>) -> Seq<usize> {
    broadcast_shape_spec(batch_dims(ls), batch_dims(rs))
}

/// The result shape of `matmul`: the stack shape, then the rows unless the
/// left operand is a vector, then the columns unless the right one is.
pub open spec fn matmul_shape(ls: Seq<usize>, rs: Seq<usize>) -> Seq<usize> {
    let b = mm_batch(ls, rs);
    let b1 = if ls.len() >= 2 {
        b.push(mm_rows(ls))
    } else {
        b
    };
    if rs.len() >= 2 {
        b1.push(mm_cols(rs))
    } else {
        b1
    }
}

/// The shape the left operand is broadcast to.
pub open spec fn mm_left_target(ls: Seq<usize>, batch: Seq<usize>) -> Seq<usize> {
    if ls.len() >= 2 {
        batch + seq![mm_rows(ls), mm_inner_left(ls)]
    } else {
        ls
    }
}

/// The shape the right operand is broadcast to.
pub open spec fn mm_right_target(rs: Seq<usize>, batch: Seq<usize>) -> Seq<usize> {
    if rs.len() >= 2 {
        batch + seq![mm_inner_right(rs), mm_cols(rs)]
    } else {
        rs
    }
}

/// The left factor of term `t` of cell (`bi`, `row`) of a matrix product.
pub open spec fn mm_left<T>(l: (Seq<T>, Seq<usize>, Seq<isize>, int), batch: Seq<usize>, bi: int, row: int, t: int) -> T {
    let target = mm_left_target(l.1, batch);
    let idx = if l.1.len() >= 2 {
        unravel(batch, bi) + seq![row, t]
    } else {
        seq![t]
    };
    layout_at(l, broadcast_source_index(l.1, target, idx))
}

/// The right factor of term `t` of cell (`bi`, `col`) of a matrix product.
pub open spec fn mm_right<T>(r: (Seq<T>, Seq<usize>, Seq<isize>, int), batch: Seq<usize>, bi: int, t: int, col: int) -> T {
    let target = mm_right_target(r.1, batch);
    let idx = if r.1.len() >= 2 {
        unravel(batch, bi) + seq![t, col]
    } else {
        seq![t]
    };
    layout_at(r, broadcast_source_index(r.1, target, idx))
}

/// The wrapping sum of the first `k` products of cell (`bi`, `row`, `col`).
pub open spec fn mm_sum<T: Scalar>(
    l: (Seq<T>, Seq<usize>, Seq<isize>, int),
    r: (Seq<T>, Seq<usize>, Seq<isize>, int),
    bi: int,
    row: int,
    col: int,
    k: int,
) -> T
    decreases k,
{
    if k <= 0 {
        T::spec_zero()
    } else {
        let batch = mm_batch(l.1, r.1);
        T::spec_add(
            mm_sum(l, r, bi, row, col, k - 1),
            T::spec_mul(mm_left(l, batch, bi, row, k - 1), mm_right(r, batch, bi, k - 1, col)),
        )
    }
}

/// What `matmul` returns for operands with layouts `l` and `r`.
pub open spec fn matmul_result<T: Scalar>(
    l: (Seq<T>, Seq<usize>, Seq<isize>, int),
    r: (Seq<T>, Seq<usize>, Seq<isize>, int),
    res: Result<Array<T>, NumRsError>,
) -> bool {
    let ls = l.1;
    let rs = r.1;
    match res {
        Ok(a) => {
            let out = matmul_shape(ls, rs);
            let m = mm_rows(ls) as int;
            let n = mm_cols(rs) as int;
            &&& ls.len() >= 1
            &&& rs.len() >= 1
            &&& shapes_broadcast(batch_dims(ls), batch_dims(rs))
            &&& mm_inner_left(ls) == mm_inner_right(rs)
            &&& fits_array(out)
            &&& a.wf()
            &&& a.shape_spec() == out
            &&& a.elems().len() == shape_size(mm_batch(ls, rs)) * m * n
            &&& forall|i: int|
                0 <= i < a.elems().len() ==> #[trigger] a.elems()[i] == mm_sum(
                    l,
                    r,
                    i / (m * n),
                    (i / n) % m,
                    i % n,
                    mm_inner_left(ls) as int,
                )
        },
        Err(e) => if ls.len() == 0 || rs.len() == 0 {
            e matches NumRsError::InvalidShape(m) && m@ == scalar_operand_text(ls, rs)
        } else if !shapes_broadcast(batch_dims(ls), batch_dims(rs)) {
            e matches NumRsError::BroadcastMismatch { left: x, right: y } && x@ == batch_dims(ls) && y@ == batch_dims(rs)
        } else if mm_inner_left(ls) != mm_inner_right(rs) {
            e matches NumRsError::DotShapeMismatch { left: x, right: y } && x@ == ls && y@ == rs
        } else {
            !fits_array(matmul_shape(ls, rs)) && e == NumRsError::ShapeOverflow
        },
    }
}

/// The message of a scalar matmul operand: both shapes as bracketed lists.
pub open spec fn scalar_operand_text(left: Seq<usize>, right: Seq<usize>) -> Seq<char> {
    "matmul does not accept scalar operands, got "@ + list_text(usize_ints(left)) + " and "@ + list_text(
        usize_ints(right),
    )
}

/// The error for a scalar matmul operand.
fn scalar_operand_error(left: &[usize], right: &[usize]) -> (e: NumRsError)
    ensures
        e matches NumRsError::InvalidShape(m) && m@ == scalar_operand_text(left@, right@),
{
    let mut out: Vec<char> = Vec::new();
    push_str(&mut out, "matmul does not accept scalar operands, got ");
    push_usize_list(&mut out, left);
    push_str(&mut out, " and ");
    push_usize_list(&mut out, right);
    NumRsError::InvalidShape(string_from_chars(&out))
}

/// The output of a batched matrix product: the batch dimensions, then `m`
/// when the left operand is a matrix and `n` when the right one is, has
/// `batch * m * n` elements (a missing dimension counting as 1).
proof fn lemma_matmul_out_size(batch: Seq<usize>, m: usize, n: usize, lm: bool, rm: bool, out: Seq<usize>)
    requires
        !lm ==> m == 1,
        !rm ==> n == 1,
        out == (if rm { (if lm { batch.push(m) } else { batch }).push(n) } else { if lm { batch.push(m) } else { batch } }),
    ensures
        shape_size(out) == shape_size(batch) * m * n,
{
    let b1 = if lm { batch.push(m) } else { batch };
    let sb = shape_size(batch);
    if lm {
        assert(b1.drop_last() =~= batch);
    }
    assert(shape_size(b1) == sb * m);
    if rm {
        assert(out.drop_last() =~= b1);
    }
    assert(shape_size(out) == shape_size(b1) * n);
}

/// The first `n` entries of `s`.
pub(crate) fn take_prefix(s: &[usize], n: usize) -> (r: Vec<usize>)
    requires
        n <= s@.len(),
    ensures
        r@ == s@.take(n as int),
{
    let mut out: Vec<usize> = Vec::new();
    let mut i: usize = 0;
    while i < n
        invariant
            i <= n,
            n <= s@.len(),
            out@ == s@.take(i as int),
        decreases n - i,
    {
        out.push(s[i]);
        i += 1;
        assert(out@ =~= s@.take(i as int));
    }
    out
}

/// `idx` followed by `a` and `b`, or `lone` alone when `single`.
fn operand_index(idx: &[usize], a: usize, b: usize, single: bool, lone: usize) -> (r: Vec<usize>)
    ensures
        to_ints(r@) == if single {
            seq![lone as int]
        } else {
            to_ints(idx@) + seq![a as int, b as int]
        },
{
    let mut out: Vec<usize> = Vec::new();
    if !single {
        out = vstd::slice::slice_to_vec(idx);
        out.push(a);
        out.push(b);
    } else {
        out.push(lone);
    }
    proof {
        if single {
            assert(to_ints(out@) =~= seq![lone as int]);
        } else {
            assert(to_ints(out@) =~= to_ints(idx@) + seq![a as int, b as int]);
        }
    }
    out
}

/// A matrix operand broadcasts to its target shape.
proof fn lemma_operand_broadcasts(s: Seq<usize>, batch: Seq<usize>, x: usize, y: usize)
    requires
        s.len() >= 2,
        s[s.len() - 2] == x,
        s[s.len() - 1] == y,
        bcast_le(batch_dims(s), batch),
    ensures
        broadcasts_to(s, batch + seq![x, y]),
{
    let t = batch + seq![x, y];
    let b = batch_dims(s);
    assert forall|i: int| 0 <= i < t.len() implies #[trigger] dim_right(s, i) == 1 || dim_right(s, i) == dim_right(t, i) by {
        if i >= 2 {
            assert(dim_right(s, i) == dim_right(b, i - 2));
            assert(dim_right(t, i) == dim_right(batch, i - 2));
        }
    }
    assert(bcast_le(s, t));
    lemma_bcast_le_broadcasts_to(s, t);
}

impl<'a, T: Copy> ArrayView<'a, T> {
    /// The element at `idx` of the view broadcast to `target` (with broadcast
    /// strides `tstrides`).
    fn read_broadcast(&self, target: &[usize], tstrides: &[isize], idx: &[usize]) -> (r: T)
        requires
            self.wf(),
            broadcasts_to(self.shape_spec(), target@),
            tstrides@ == broadcast_strides_spec(self.shape_spec(), self.strides_spec(), target@),
            dims_bounded(target@),
            in_bounds(to_ints(idx@), target@),
        ensures
            r == layout_at(self.layout(), broadcast_source_index(self.shape_spec(), target@, to_ints(idx@))),
    {
        proof {
            self.lemma_offsets_fit();
            lemma_broadcast_offsets_within(
                self.shape_spec(),
                self.strides_spec(),
                target@,
                self.offset_spec(),
                isize::MAX + 1,
            );
            lemma_broadcast_offsets_within(
                self.shape_spec(),
                self.strides_spec(),
                target@,
                self.offset_spec(),
                self.data_spec().len() as int,
            );
            lemma_broadcast_dot(self.shape_spec(), self.strides_spec(), target@, to_ints(idx@));
        }
        let data = self.raw_data();
        match offset_for_index(target, tstrides, self.offset(), idx) {
            Ok(o) => data[o],
            Err(_) => {
                assert(false);
                data[0]
            },
        }
    }
}

/// Position facts for a linear index into a stack of `b` blocks of `m` by `n` cells.
proof fn lemma_cell_coords(i: int, b: int, m: int, n: int)
    requires
        0 <= i < b * m * n,
        b >= 0,
        m >= 0,
        n >= 0,
    ensures
        m >= 1,
        n >= 1,
        b >= 1,
        m * n >= 1,
        m * n <= b * m * n,
        0 <= i / (m * n) < b,
        0 <= (i / n) % m < m,
        0 <= i % n < n,
{
    assert(b >= 1 && m >= 1 && n >= 1) by (nonlinear_arith)
        requires
            0 <= i < b * m * n,
            b >= 0,
            m >= 0,
            n >= 0,
    ;
    assert(m * n >= 1) by (nonlinear_arith)
        requires
            m >= 1,
            n >= 1,
    ;
    assert(m * n <= b * m * n) by (nonlinear_arith)
        requires
            b >= 1,
            m >= 1,
            n >= 1,
    ;
    assert(0 <= i / (m * n) < b) by (nonlinear_arith)
        requires
            0 <= i < b * m * n,
            b >= 1,
            m >= 1,
            n >= 1,
    ;
}

impl<'a, T: Scalar> ArrayView<'a, T> {
    /// One cell of a matrix product: the wrapping sum over the contracted axis.
    fn matmul_cell(
        &self,
        rhs: &ArrayView<'_, T>,
        lt: &[usize],
        lst: &[isize],
        rt: &[usize],
        rst: &[isize],
        bidx: &[usize],
        Ghost(bi): Ghost<int>,
        row: usize,
        col: usize,
        k: usize,
    ) -> (r: T)
        requires
            self.wf(),
            rhs.wf(),
            self.shape_spec().len() >= 1,
            rhs.shape_spec().len() >= 1,
            lt@ == mm_left_target(self.shape_spec(), mm_batch(self.shape_spec(), rhs.shape_spec())),
            rt@ == mm_right_target(rhs.shape_spec(), mm_batch(self.shape_spec(), rhs.shape_spec())),
            broadcasts_to(self.shape_spec(), lt@),
            broadcasts_to(rhs.shape_spec(), rt@),
            lst@ == broadcast_strides_spec(self.shape_spec(), self.strides_spec(), lt@),
            rst@ == broadcast_strides_spec(rhs.shape_spec(), rhs.strides_spec(), rt@),
            dims_bounded(lt@),
            dims_bounded(rt@),
            to_ints(bidx@) == unravel(mm_batch(self.shape_spec(), rhs.shape_spec()), bi),
            in_bounds(to_ints(bidx@), mm_batch(self.shape_spec(), rhs.shape_spec())),
            row < mm_rows(self.shape_spec()),
            col < mm_cols(rhs.shape_spec()),
            k == mm_inner_left(self.shape_spec()),
            k == mm_inner_right(rhs.shape_spec()),
        ensures
            r == mm_sum(self.layout(), rhs.layout(), bi, row as int, col as int, k as int),
    {
        let ghost batch = mm_batch(self.shape_spec(), rhs.shape_spec());
        let lvec = self.ndim() < 2;
        let rvec = rhs.ndim() < 2;
        let mut acc = T::zero();
        let mut t: usize = 0;
        while t < k
            invariant
                self.wf(),
                rhs.wf(),
                self.shape_spec().len() >= 1,
                rhs.shape_spec().len() >= 1,
                batch == mm_batch(self.shape_spec(), rhs.shape_spec()),
                lvec == (self.shape_spec().len() < 2),
                rvec == (rhs.shape_spec().len() < 2),
                lt@ == mm_left_target(self.shape_spec(), batch),
                rt@ == mm_right_target(rhs.shape_spec(), batch),
                broadcasts_to(self.shape_spec(), lt@),
                broadcasts_to(rhs.shape_spec(), rt@),
                lst@ == broadcast_strides_spec(self.shape_spec(), self.strides_spec(), lt@),
                rst@ == broadcast_strides_spec(rhs.shape_spec(), rhs.strides_spec(), rt@),
                dims_bounded(lt@),
                dims_bounded(rt@),
                to_ints(bidx@) == unravel(batch, bi),
                in_bounds(to_ints(bidx@), batch),
                row < mm_rows(self.shape_spec()),
                col < mm_cols(rhs.shape_spec()),
                k == mm_inner_left(self.shape_spec()),
                k == mm_inner_right(rhs.shape_spec()),
                t <= k,
                acc == mm_sum(self.layout(), rhs.layout(), bi, row as int, col as int, t as int),
            decreases k - t,
        {
            let lidx = operand_index(bidx, row, t, lvec, t);
            let ridx = operand_index(bidx, t, col, rvec, t);
            proof {
                let li = to_ints(lidx@);
                let ri = to_ints(ridx@);
                assert forall|j: int| 0 <= j < li.len() implies 0 <= #[trigger] li[j] < lt@[j] by {
                    if !lvec && j < batch.len() {
                        assert(li[j] == to_ints(bidx@)[j]);
                    }
                }
                assert(in_bounds(li, lt@));
                assert forall|j: int| 0 <= j < ri.len() implies 0 <= #[trigger] ri[j] < rt@[j] by {
                    if !rvec && j < batch.len() {
                        assert(ri[j] == to_ints(bidx@)[j]);
                    }
                }
                assert(in_bounds(ri, rt@));
            }
            let x = self.read_broadcast(lt, lst, &lidx);
            let y = rhs.read_broadcast(rt, rst, &ridx);
            acc = T::add_wrap(acc, T::mul_wrap(x, y));
            t += 1;
        }
        acc
    }

    /// NumPy `matmul`: 1-D operands act as a row (left) or column (right)
    /// vector whose axis is dropped from the result, and the dimensions before
    /// the last two are broadcast as a stack of matrices. Integers wrap around
    /// on overflow.
    #[verifier::rlimit(40)]
    pub fn matmul(&self, rhs: &ArrayView<'_, T>) -> (r: Result<Array<T>, NumRsError>)
        requires
            self.wf(),
            rhs.wf(),
        ensures
            matmul_result(self.layout(), rhs.layout(), r),
    {
        let ln = self.ndim();
        let rn = rhs.ndim();
        if ln == 0 || rn == 0 {
            return Err(scalar_operand_error(self.shape(), rhs.shape()));
        }
        let ls = self.shape();
        let rs = rhs.shape();
        let lb = take_prefix(ls, if ln >= 2 { ln - 2 } else { 0 });
        let rb = take_prefix(rs, if rn >= 2 { rn - 2 } else { 0 });
        proof {
            assert(lb@ =~= batch_dims(ls@));
            assert(rb@ =~= batch_dims(rs@));
        }
        let batch = broadcast_shape(&lb, &rb)?;
        let m = if ln >= 2 { ls[ln - 2] } else { 1 };
        let kl = ls[ln - 1];
        let kr = if rn >= 2 { rs[rn - 2] } else { rs[0] };
        let n = if rn >= 2 { rs[rn - 1] } else { 1 };
        if kl != kr {
            return Err(NumRsError::DotShapeMismatch { left: copy_usizes(ls), right: copy_usizes(rs) });
        }
        proof {
            assert(dims_bounded(lb@));
            assert(dims_bounded(rb@));
            lemma_broadcast_dims_bounded(lb@, rb@);
            lemma_broadcast_result(lb@, rb@);
        }
        let mut out = copy_usizes(&batch);
        if ln >= 2 {
            out.push(m);
        }
        if rn >= 2 {
            out.push(n);
        }
        proof {
            assert(out@ =~= matmul_shape(ls@, rs@));
            lemma_matmul_out_size(batch@, m, n, ln >= 2, rn >= 2, out@);
            assert(shape_size(out@) == shape_size(batch@) * m * n);
        }
        let total = match size_of_shape(&out) {
            Ok(v) => v,
            Err(_) => {
                return Err(NumRsError::ShapeOverflow);
            },
        };
        if total > isize::MAX as usize {
            return Err(NumRsError::ShapeOverflow);
        }
        let mut lt = copy_usizes(ls);
        if ln >= 2 {
            lt = copy_usizes(&batch);
            lt.push(m);
            lt.push(kl);
        }
        let mut rt = copy_usizes(rs);
        if rn >= 2 {
            rt = copy_usizes(&batch);
            rt.push(kr);
            rt.push(n);
        }
        proof {
            assert(lt@ =~= mm_left_target(ls@, batch@));
            assert(rt@ =~= mm_right_target(rs@, batch@));
            if ln >= 2 {
                lemma_operand_broadcasts(ls@, batch@, m, kl);
            } else {
                assert(bcast_le(ls@, ls@));
                lemma_bcast_le_broadcasts_to(ls@, ls@);
            }
            if rn >= 2 {
                lemma_operand_broadcasts(rs@, batch@, kr, n);
            } else {
                assert(bcast_le(rs@, rs@));
                lemma_bcast_le_broadcasts_to(rs@, rs@);
            }
            assert(dims_bounded(lt@));
            assert(dims_bounded(rt@));
        }
        let lst = broadcast_strides(ls, self.strides(), &lt).unwrap();
        let rst = broadcast_strides(rs, rhs.strides(), &rt).unwrap();
        let ghost bsize = shape_size(batch@);
        proof {
            lemma_shape_size_nonneg(batch@);
        }
        let mut data: Vec<T> = Vec::new();
        let mut i: usize = 0;
        while i < total
            invariant
                self.wf(),
                rhs.wf(),
                self.shape_spec().len() >= 1,
                rhs.shape_spec().len() >= 1,
                ln == self.shape_spec().len(),
                rn == rhs.shape_spec().len(),
                batch@ == mm_batch(self.shape_spec(), rhs.shape_spec()),
                bsize == shape_size(batch@),
                bsize >= 0,
                total == bsize * m * n,
                m == mm_rows(self.shape_spec()),
                n == mm_cols(rhs.shape_spec()),
                kl == mm_inner_left(self.shape_spec()),
                kl == mm_inner_right(rhs.shape_spec()),
                lt@ == mm_left_target(self.shape_spec(), batch@),
                rt@ == mm_right_target(rhs.shape_spec(), batch@),
                broadcasts_to(self.shape_spec(), lt@),
                broadcasts_to(rhs.shape_spec(), rt@),
                lst@ == broadcast_strides_spec(self.shape_spec(), self.strides_spec(), lt@),
                rst@ == broadcast_strides_spec(rhs.shape_spec(), rhs.strides_spec(), rt@),
                dims_bounded(lt@),
                dims_bounded(rt@),
                i <= total,
                data@.len() == i,
                forall|j: int|
                    0 <= j < i ==> #[trigger] data@[j] == mm_sum(
                        self.layout(),
                        rhs.layout(),
                        j / (m * n),
                        (j / n as int) % (m as int),
                        j % (n as int),
                        kl as int,
                    ),
            decreases total - i,
        {
            proof {
                lemma_shape_size_nonneg(batch@);
                lemma_cell_coords(i as int, bsize, m as int, n as int);
            }
            let cells = m * n;
            let bi = i / cells;
            let row = (i / n) % m;
            let col = i % n;
            proof {
                lemma_positive_size_dims(batch@);
                lemma_unravel_in_bounds(batch@, bi as int);
            }
            let bidx = unravel_index(&batch, bi);
            let v = self.matmul_cell(rhs, &lt, &lst, &rt, &rst, &bidx, Ghost(bi as int), row, col, kl);
            data.push(v);
            i += 1;
        }
        Ok(Array::from_vec_trusted(out, data))
    }
}

/// Size of a two-dimensional shape.
pub proof fn lemma_size_pair(a: usize, b: usize)
    ensures
        shape_size(seq![a, b]) == a * b,
        size_fits(seq![a, b]) == (a * b <= usize::MAX),
{
    let s = seq![a, b];
    let e = Seq::<usize>::empty();
    assert(s.drop_last() =~= seq![a]);
    assert(seq![a].drop_last() =~= e);
    assert(seq![a].last() == a);
    assert(s.last() == b);
    assert(shape_size(e) == 1);
    assert(size_fits(e));
    assert(shape_size(seq![a]) == a);
    assert(size_fits(seq![a]));
    assert(shape_size(s) == shape_size(seq![a]) * b);
}

/// The wrapping sum of the first `k` products `l[row, t] * r[t, col]`, or
/// `l[row, t] * r[col, t]` when `flip`.
pub open spec fn matrix_sum<T: Scalar>(
    l: (Seq<T>, Seq<usize>, Seq<isize>, int),
    r: (Seq<T>, Seq<usize>, Seq<isize>, int),
    row: int,
    col: int,
    k: int,
    flip: bool,
) -> T
    decreases k,
{
    if k <= 0 {
        T::spec_zero()
    } else {
        let ridx = if flip {
            seq![col, k - 1]
        } else {
            seq![k - 1, col]
        };
        T::spec_add(matrix_sum(l, r, row, col, k - 1, flip), T::spec_mul(layout_at(l, seq![row, k - 1]), layout_at(r, ridx)))
    }
}

/// What `dot2d` (`flip` false) or `inner2d` (`flip` true) returns for matrices
/// with layouts `l` and `r`: the right matrix is used as is or transposed.
pub open spec fn matrix_product_result<T: Scalar>(
    l: (Seq<T>, Seq<usize>, Seq<isize>, int),
    r: (Seq<T>, Seq<usize>, Seq<isize>, int),
    flip: bool,
    res: Result<Array<T>, NumRsError>,
) -> bool {
    let ls = l.1;
    let rs = r.1;
    let shapes_ok = ls.len() == 2 && rs.len() == 2 && ls[1] == (if flip { rs[1] } else { rs[0] });
    let n = if flip { rs[0] } else { rs[1] };
    match res {
        Ok(a) => {
            &&& shapes_ok
            &&& fits_array(seq![ls[0], n])
            &&& a.wf()
            &&& a.shape_spec() == seq![ls[0], n]
            &&& a.elems().len() == ls[0] * n
            &&& forall|i: int|
                0 <= i < a.elems().len() ==> #[trigger] a.elems()[i] == matrix_sum(l, r, i / (n as int), i % (n as int), ls[1] as int, flip)
        },
        Err(e) => if !shapes_ok {
            e matches NumRsError::DotShapeMismatch { left: x, right: y } && x@ == ls && y@ == rs
        } else {
            !fits_array(seq![ls[0], n]) && e == NumRsError::ShapeOverflow
        },
    }
}

impl<'a, T: Scalar> ArrayView<'a, T> {
    /// Product of two matrices whose shapes were checked, the right one used as
    /// is or, when `flip`, transposed.
    fn matrix_product(&self, rhs: &ArrayView<'_, T>, flip: bool) -> (r: Result<Array<T>, NumRsError>)
        requires
            self.wf(),
            rhs.wf(),
            self.shape_spec().len() == 2,
            rhs.shape_spec().len() == 2,
            self.shape_spec()[1] == (if flip { rhs.shape_spec()[1] } else { rhs.shape_spec()[0] }),
        ensures
            matrix_product_result(self.layout(), rhs.layout(), flip, r),
    {
        let rows = self.shape()[0];
        let inner = self.shape()[1];
        let cols = if flip { rhs.shape()[0] } else { rhs.shape()[1] };
        let total = match rows.checked_mul(cols) {
            Some(v) => v,
            None => {
                proof {
                    lemma_size_pair(rows, cols);
                }
                return Err(NumRsError::ShapeOverflow);
            },
        };
        let mut shape: Vec<usize> = Vec::new();
        shape.push(rows);
        shape.push(cols);
        proof {
            assert(shape@ =~= seq![rows, cols]);
            lemma_size_pair(rows, cols);
        }
        if total > isize::MAX as usize {
            return Err(NumRsError::ShapeOverflow);
        }
        let mut data: Vec<T> = Vec::new();
        let mut i: usize = 0;
        while i < total
            invariant
                self.wf(),
                rhs.wf(),
                self.shape_spec().len() == 2,
                rhs.shape_spec().len() == 2,
                rows == self.shape_spec()[0],
                inner == self.shape_spec()[1],
                cols == (if flip { rhs.shape_spec()[0] } else { rhs.shape_spec()[1] }),
                inner == (if flip { rhs.shape_spec()[1] } else { rhs.shape_spec()[0] }),
                total == rows * cols,
                i <= total,
                data@.len() == i,
                forall|j: int|
                    0 <= j < i ==> #[trigger] data@[j] == matrix_sum(
                        self.layout(),
                        rhs.layout(),
                        j / (cols as int),
                        j % (cols as int),
                        inner as int,
                        flip,
                    ),
            decreases total - i,
        {
            proof {
                assert(cols > 0 && (i as int) / (cols as int) < rows as int) by (nonlinear_arith)
                    requires
                        i < total,
                        total == rows * cols,
                ;
            }
            let row = i / cols;
            let col = i % cols;
            let mut acc = T::zero();
            let mut t: usize = 0;
            while t < inner
                invariant
                    self.wf(),
                    rhs.wf(),
                    self.shape_spec().len() == 2,
                    rhs.shape_spec().len() == 2,
                    row < self.shape_spec()[0],
                    inner == self.shape_spec()[1],
                    col < (if flip { rhs.shape_spec()[0] } else { rhs.shape_spec()[1] }),
                    inner == (if flip { rhs.shape_spec()[1] } else { rhs.shape_spec()[0] }),
                    t <= inner,
                    acc == matrix_sum(self.layout(), rhs.layout(), row as int, col as int, t as int, flip),
                decreases inner - t,
            {
                let lidx = vec![row, t];
                let ridx = if flip {
                    vec![col, t]
                } else {
                    vec![t, col]
                };
                proof {
                    assert(to_ints(lidx@) =~= seq![row as int, t as int]);
                    if flip {
                        assert(to_ints(ridx@) =~= seq![col as int, t as int]);
                    } else {
                        assert(to_ints(ridx@) =~= seq![t as int, col as int]);
                    }
                }
                let x = self.elem_at(&lidx);
                let y = rhs.elem_at(&ridx);
                acc = T::add_wrap(acc, T::mul_wrap(x, y));
                t += 1;
            }
            data.push(acc);
            i += 1;
        }
        Ok(Array::from_vec_trusted(shape, data))
    }

    /// Matrix product of two 2-D operands (`[m, k] x [k, n] -> [m, n]`).
    pub fn dot2d(&self, rhs: &ArrayView<'_, T>) -> (r: Result<Array<T>, NumRsError>)
        requires
            self.wf(),
            rhs.wf(),
        ensures
            matrix_product_result(self.layout(), rhs.layout(), false, r),
    {
        if self.ndim() != 2 || rhs.ndim() != 2 || self.shape()[1] != rhs.shape()[0] {
            return Err(NumRsError::DotShapeMismatch { left: copy_usizes(self.shape()), right: copy_usizes(rhs.shape()) });
        }
        self.matrix_product(rhs, false)
    }

    /// Inner product of the rows of two 2-D operands (`[m, k] x [n, k] -> [m, n]`).
    pub fn inner2d(&self, rhs: &ArrayView<'_, T>) -> (r: Result<Array<T>, NumRsError>)
        requires
            self.wf(),
            rhs.wf(),
        ensures
            matrix_product_result(self.layout(), rhs.layout(), true, r),
    {
        if self.ndim() != 2 || rhs.ndim() != 2 || self.shape()[1] != rhs.shape()[1] {
            return Err(NumRsError::DotShapeMismatch { left: copy_usizes(self.shape()), right: copy_usizes(rhs.shape()) });
        }
        self.matrix_product(rhs, true)
    }
}

} // verus!
