use vstd::prelude::*;
use crate::numrs::error::NumRsError;
use crate::numrs::array::{Array, ArrayView, copy_usizes, first_bad_take, normalize_take_index, take_ok, take_position, usize_slices_eq};
use crate::numrs::element::{Ordered, Scalar};
use crate::numrs::layout::{broadcast_strides, broadcasts_to};
use crate::numrs::ops::{BinaryOp, dims_bounded, quotient};
use crate::numrs::shape::{invalid_shape_with, shape_size};
use crate::display::{push_decimal, push_str, string_from_chars};
use crate::text::decimal_text;

verus! {

/// `data` after the first `j` writes of `put`: write `k` stores
/// `values[k % values.len()]` at the position `indices[k]` addresses.
pub open spec fn put_elems<T>(data: Seq<T>, indices: Seq<isize>, values: Seq<T>, j: int) -> Seq<T>
    decreases j,
{
    if j <= 0 {
        data
    } else {
        put_elems(data, indices, values, j - 1).update(
            take_position(indices[j - 1], data.len() as int),
            values[(j - 1) % (values.len() as int)],
        )
    }
}

/// `data` after the first `j` updates of `add_at`: update `k` adds `values[k]`
/// (wrapping) to the element `indices[k]` addresses.
pub open spec fn add_at_elems<T: Scalar>(data: Seq<T>, indices: Seq<isize>, values: Seq<T>, j: int) -> Seq<T>
    decreases j,
{
    if j <= 0 {
        data
    } else {
        let prev = add_at_elems(data, indices, values, j - 1);
        let p = take_position(indices[j - 1], data.len() as int);
        prev.update(p, T::spec_add(prev[p], values[j - 1]))
    }
}

/// `data` after the first `j` updates of `maximum_at`: update `k` replaces the
/// element `indices[k]` addresses by `values[k]` when that is strictly larger.
pub open spec fn maximum_at_elems<T: Ordered>(data: Seq<T>, indices: Seq<isize>, values: Seq<T>, j: int) -> Seq<T>
    decreases j,
{
    if j <= 0 {
        data
    } else {
        let prev = maximum_at_elems(data, indices, values, j - 1);
        let p = take_position(indices[j - 1], data.len() as int);
        prev.update(p, if T::spec_lt(prev[p], values[j - 1]) { values[j - 1] } else { prev[p] })
    }
}

/// Number of true entries among the first `i` of `mask`.
pub open spec fn count_true(mask: Seq<bool>, i: int) -> int
    decreases i,
{
    if i <= 0 {
        0
    } else {
        count_true(mask, i - 1) + if mask[i - 1] { 1int } else { 0int }
    }
}

/// `data` after `putmask`: the `k`-th selected element becomes `values[k % values.len()]`.
pub open spec fn putmask_elems<T>(data: Seq<T>, mask: Seq<bool>, values: Seq<T>) -> Seq<T> {
    Seq::new(
        data.len(),
        |i: int|
            if mask[i] {
                values[count_true(mask, i) % (values.len() as int)]
            } else {
                data[i]
            },
    )
}

proof fn lemma_count_true_bound(mask: Seq<bool>, i: int)
    requires
        0 <= i,
    ensures
        0 <= count_true(mask, i) <= i,
    decreases i,
{
    if i > 0 {
        lemma_count_true_bound(mask, i - 1);
    }
}

proof fn lemma_put_elems_len<T>(data: Seq<T>, indices: Seq<isize>, values: Seq<T>, j: int)
    requires
        forall|k: int| 0 <= k < j ==> take_ok(#[trigger] indices[k], data.len() as int),
    ensures
        put_elems(data, indices, values, j).len() == data.len(),
    decreases j,
{
    if j > 0 {
        lemma_put_elems_len(data, indices, values, j - 1);
    }
}

proof fn lemma_add_at_elems_len<T: Scalar>(data: Seq<T>, indices: Seq<isize>, values: Seq<T>, j: int)
    requires
        forall|k: int| 0 <= k < j ==> take_ok(#[trigger] indices[k], data.len() as int),
    ensures
        add_at_elems(data, indices, values, j).len() == data.len(),
    decreases j,
{
    if j > 0 {
        lemma_add_at_elems_len(data, indices, values, j - 1);
    }
}

proof fn lemma_maximum_at_elems_len<T: Ordered>(data: Seq<T>, indices: Seq<isize>, values: Seq<T>, j: int)
    requires
        forall|k: int| 0 <= k < j ==> take_ok(#[trigger] indices[k], data.len() as int),
    ensures
        maximum_at_elems(data, indices, values, j).len() == data.len(),
    decreases j,
{
    if j > 0 {
        lemma_maximum_at_elems_len(data, indices, values, j - 1);
    }
}

/// The message of a values list whose length differs from the indices'.
pub open spec fn value_count_text(what: Seq<char>, expected: nat, actual: nat) -> Seq<char> {
    what + " expected "@ + decimal_text(expected) + " values, got "@ + decimal_text(actual)
}

/// The error for `actual` values given where `expected` were needed.
fn value_count_error(what: &str, expected: usize, actual: usize) -> (e: NumRsError)
    ensures
        invalid_shape_with(e, value_count_text(what@, expected as nat, actual as nat)),
{
    let mut out: Vec<char> = Vec::new();
    push_str(&mut out, what);
    push_str(&mut out, " expected ");
    push_decimal(&mut out, expected as u128);
    push_str(&mut out, " values, got ");
    push_decimal(&mut out, actual as u128);
    NumRsError::InvalidShape(string_from_chars(&out))
}

impl<T: Copy> Array<T> {
    /// Store `values` (cycled) at the flat positions `indices` (negative counts
    /// from the end), in order; a bad index stops the writes there.
    pub fn put(&mut self, indices: &[isize], values: &[T]) -> (r: Result<(), NumRsError>)
        requires
            old(self).wf(),
        ensures
            final(self).wf(),
            final(self).shape_spec() == old(self).shape_spec(),
            match r {
                Ok(_) => (forall|k: int| 0 <= k < indices@.len() ==> take_ok(#[trigger] indices@[k], old(self).elems().len() as int))
                    && (indices@.len() > 0 ==> values@.len() > 0)
                    && final(self).elems() == put_elems(old(self).elems(), indices@, values@, indices@.len() as int),
                Err(e) => if indices@.len() > 0 && values@.len() == 0 {
                    invalid_shape_with(e, "put values cannot be empty when indices are non-empty"@)
                        && final(self).elems() == old(self).elems()
                } else {
                    exists|j: int|
                        #[trigger] first_bad_take(indices@, old(self).elems().len() as int, j) && e == (NumRsError::IndexOutOfBounds {
                            axis: 0,
                            index: indices@[j],
                            len: old(self).elems().len() as usize,
                        }) && final(self).elems() == put_elems(old(self).elems(), indices@, values@, j)
                },
            },
    {
        if indices.len() == 0 {
            return Ok(());
        }
        if values.len() == 0 {
            return Err(NumRsError::InvalidShape("put values cannot be empty when indices are non-empty".to_string()));
        }
        self.forget_uniform();
        let len = self.len();
        let ghost start = self.elems();
        let mut j: usize = 0;
        while j < indices.len()
            invariant
                self.wf(),
                self.shape_spec() == old(self).shape_spec(),
                start == old(self).elems(),
                len == start.len(),
                values@.len() > 0,
                j <= indices@.len(),
                forall|k: int| 0 <= k < j ==> take_ok(#[trigger] indices@[k], len as int),
                self.elems() == put_elems(start, indices@, values@, j as int),
            decreases indices@.len() - j,
        {
            proof {
                lemma_put_elems_len(start, indices@, values@, j as int);
            }
            let target = match normalize_take_index(indices[j], 0, len) {
                Ok(t) => t,
                Err(e) => {
                    proof {
                        assert(first_bad_take(indices@, len as int, j as int));
                    }
                    return Err(e);
                },
            };
            let v = values[j % values.len()];
            self.set_elem(target, v);
            j += 1;
        }
        Ok(())
    }

    /// Overwrite the elements selected by `mask` (same shape) with `values`,
    /// cycling through them in row-major order.
    pub fn putmask(&mut self, mask: &Array<bool>, values: &[T]) -> (r: Result<(), NumRsError>)
        requires
            old(self).wf(),
            mask.wf(),
        ensures
            final(self).wf(),
            final(self).shape_spec() == old(self).shape_spec(),
            match r {
                Ok(_) => {
                    &&& old(self).shape_spec() == mask.shape_spec()
                    &&& (values@.len() == 0 ==> mask.uniform_spec() != Some(true) && forall|i: int|
                        0 <= i < mask.elems().len() ==> !#[trigger] mask.elems()[i])
                    &&& final(self).elems() == putmask_elems(old(self).elems(), mask.elems(), values@)
                },
                Err(e) => final(self).elems() == old(self).elems() && if old(self).shape_spec() != mask.shape_spec() {
                    e matches NumRsError::BooleanMaskShapeMismatch { array: a, mask: m } && a@ == old(self).shape_spec()
                        && m@ == mask.shape_spec()
                } else {
                    values@.len() == 0 && (mask.uniform_spec() == Some(true) || exists|i: int|
                        0 <= i < mask.elems().len() && #[trigger] mask.elems()[i]) && invalid_shape_with(
                        e,
                        "putmask values cannot be empty when mask selects values"@,
                    )
                },
            },
    {
        if !usize_slices_eq(self.shape(), mask.shape()) {
            return Err(
                NumRsError::BooleanMaskShapeMismatch { array: copy_usizes(self.shape()), mask: copy_usizes(mask.shape()) },
            );
        }
        let n = self.len();
        match mask.uniform_value() {
            Some(false) => {
                assert(self.elems() =~= putmask_elems(self.elems(), mask.elems(), values@));
                return Ok(());
            },
            Some(true) => {
                if values.len() == 0 {
                    return Err(NumRsError::InvalidShape("putmask values cannot be empty when mask selects values".to_string()));
                }
                if values.len() == 1 {
                    let ghost before = self.elems();
                    self.fill(values[0]);
                    assert(self.elems() =~= putmask_elems(before, mask.elems(), values@));
                    return Ok(());
                }
            },
            None => {},
        }
        self.forget_uniform();
        let ghost start = self.elems();
        let mut value_index: usize = 0;
        let mut i: usize = 0;
        while i < n
            invariant
                self.wf(),
                mask.wf(),
                values@.len() == 0 ==> mask.uniform_spec() != Some(true),
                self.shape_spec() == old(self).shape_spec(),
                self.shape_spec() == mask.shape_spec(),
                start == old(self).elems(),
                n == start.len(),
                n == mask.elems().len(),
                i <= n,
                value_index == count_true(mask.elems(), i as int),
                forall|k: int| 0 <= k < i ==> !#[trigger] mask.elems()[k] || values@.len() > 0,
                self.elems().len() == n,
                forall|k: int| 0 <= k < i ==> #[trigger] self.elems()[k] == putmask_elems(start, mask.elems(), values@)[k],
                forall|k: int| i <= k < n ==> #[trigger] self.elems()[k] == start[k],
            decreases n - i,
        {
            proof {
                lemma_count_true_bound(mask.elems(), i as int);
            }
            if mask.as_slice()[i] {
                if values.len() == 0 {
                    proof {
                        assert(self.elems() =~= start);
                    }
                    return Err(NumRsError::InvalidShape("putmask values cannot be empty when mask selects values".to_string()));
                }
                let v = values[value_index % values.len()];
                self.set_elem(i, v);
                value_index += 1;
            }
            i += 1;
        }
        assert(self.elems() =~= putmask_elems(start, mask.elems(), values@));
        Ok(())
    }

    /// Replace each element by `f(element, rhs element)`, with `rhs` broadcast
    /// to this array's shape.
    pub fn elementwise_assign<F: Fn(T, T) -> T>(&mut self, rhs: &Array<T>, f: F) -> (r: Result<(), NumRsError>)
        requires
            old(self).wf(),
            rhs.wf(),
            forall|x: T, y: T| f.requires((x, y)),
        ensures
            final(self).wf(),
            final(self).shape_spec() == old(self).shape_spec(),
            match r {
                Ok(_) => {
                    &&& broadcasts_to(rhs.shape_spec(), old(self).shape_spec())
                    &&& final(self).elems().len() == old(self).elems().len()
                    &&& forall|i: int|
                        0 <= i < old(self).elems().len() ==> f.ensures(
                            (old(self).elems()[i], rhs.bcast(old(self).shape_spec(), i)),
                            #[trigger] final(self).elems()[i],
                        )
                },
                Err(e) => {
                    &&& !broadcasts_to(rhs.shape_spec(), old(self).shape_spec())
                    &&& e matches NumRsError::BroadcastMismatch { left: l, right: rr } && l@ == rhs.shape_spec() && rr@
                        == old(self).shape_spec()
                    &&& final(self).elems() == old(self).elems()
                },
            },
    {
        let shape = copy_usizes(self.shape());
        let rv0 = rhs.view();
        if let Err(e) = broadcast_strides(rv0.shape(), rv0.strides(), &shape) {
            return Err(e);
        }
        let rv = rv0.broadcast_operand(&shape);
        let n = self.len();
        let ghost start = self.elems();
        let mut i: usize = 0;
        while i < n
            invariant
                self.wf(),
                rv.wf(),
                self.shape_spec() == old(self).shape_spec(),
                shape@ == self.shape_spec(),
                start == old(self).elems(),
                n == start.len(),
                n == shape_size(shape@),
                rv.elems().len() == n,
                forall|k: int| 0 <= k < n ==> #[trigger] rv.elems()[k] == rhs.bcast(shape@, k),
                forall|x: T, y: T| f.requires((x, y)),
                i <= n,
                self.elems().len() == n,
                forall|k: int| 0 <= k < i ==> f.ensures((start[k], rhs.bcast(shape@, k)), #[trigger] self.elems()[k]),
                forall|k: int| i <= k < n ==> #[trigger] self.elems()[k] == start[k],
            decreases n - i,
        {
            let cur = self.as_slice()[i];
            let v = f(cur, rv.elem(i));
            self.set_elem(i, v);
            i += 1;
        }
        Ok(())
    }
}

impl<T: Scalar> Array<T> {
    /// Combine each element with the broadcast `rhs` element through `op`, in place.
    fn assign_with(&mut self, rhs: &Array<T>, op: BinaryOp) -> (r: Result<(), NumRsError>)
        requires
            old(self).wf(),
            rhs.wf(),
        ensures
            final(self).wf(),
            final(self).shape_spec() == old(self).shape_spec(),
            match r {
                Ok(_) => {
                    &&& broadcasts_to(rhs.shape_spec(), old(self).shape_spec())
                    &&& final(self).elems().len() == old(self).elems().len()
                    &&& forall|i: int|
                        0 <= i < old(self).elems().len() ==> #[trigger] final(self).elems()[i] == op.apply_spec(
                            old(self).elems()[i],
                            rhs.bcast(old(self).shape_spec(), i),
                        )
                },
                Err(e) => {
                    &&& !broadcasts_to(rhs.shape_spec(), old(self).shape_spec())
                    &&& e matches NumRsError::BroadcastMismatch { left: l, right: rr } && l@ == rhs.shape_spec() && rr@
                        == old(self).shape_spec()
                    &&& final(self).elems() == old(self).elems()
                },
            },
    {
        let shape = copy_usizes(self.shape());
        let rv0 = rhs.view();
        if let Err(e) = broadcast_strides(rv0.shape(), rv0.strides(), &shape) {
            return Err(e);
        }
        let rv = rv0.broadcast_operand(&shape);
        let n = self.len();
        let ghost start = self.elems();
        let mut i: usize = 0;
        while i < n
            invariant
                self.wf(),
                rv.wf(),
                self.shape_spec() == old(self).shape_spec(),
                shape@ == self.shape_spec(),
                start == old(self).elems(),
                n == start.len(),
                n == shape_size(shape@),
                rv.elems().len() == n,
                forall|k: int| 0 <= k < n ==> #[trigger] rv.elems()[k] == rhs.bcast(shape@, k),
                i <= n,
                self.elems().len() == n,
                forall|k: int| 0 <= k < i ==> #[trigger] self.elems()[k] == op.apply_spec(start[k], rhs.bcast(shape@, k)),
                forall|k: int| i <= k < n ==> #[trigger] self.elems()[k] == start[k],
            decreases n - i,
        {
            let cur = self.as_slice()[i];
            let v = op.apply(cur, rv.elem(i));
            self.set_elem(i, v);
            i += 1;
        }
        Ok(())
    }

    /// Divide by the broadcast `rhs` in place, rounding toward zero.
    pub fn div_assign(&mut self, rhs: &Array<T>) -> (r: Result<(), NumRsError>)
        requires
            old(self).wf(),
            rhs.wf(),
            broadcasts_to(rhs.shape_spec(), old(self).shape_spec()) ==> forall|i: int|
                0 <= i < old(self).elems().len() ==> (#[trigger] T::spec_quot(
                    old(self).elems()[i],
                    rhs.bcast(old(self).shape_spec(), i),
                )) is Some,
        ensures
            final(self).wf(),
            final(self).shape_spec() == old(self).shape_spec(),
            match r {
                Ok(_) => {
                    &&& broadcasts_to(rhs.shape_spec(), old(self).shape_spec())
                    &&& final(self).elems().len() == old(self).elems().len()
                    &&& forall|i: int|
                        0 <= i < old(self).elems().len() ==> #[trigger] final(self).elems()[i] == quotient(
                            old(self).elems()[i],
                            rhs.bcast(old(self).shape_spec(), i),
                        )
                },
                Err(e) => !broadcasts_to(rhs.shape_spec(), old(self).shape_spec()) && (e matches NumRsError::BroadcastMismatch {
                    left: l,
                    right: rr,
                } && l@ == rhs.shape_spec() && rr@ == old(self).shape_spec())
                    && final(self).elems() == old(self).elems(),
            },
    {
        let shape = copy_usizes(self.shape());
        let rv0 = rhs.view();
        if let Err(e) = broadcast_strides(rv0.shape(), rv0.strides(), &shape) {
            return Err(e);
        }
        let rv = rv0.broadcast_operand(&shape);
        let n = self.len();
        let ghost start = self.elems();
        let mut i: usize = 0;
        while i < n
            invariant
                self.wf(),
                rv.wf(),
                self.shape_spec() == old(self).shape_spec(),
                shape@ == self.shape_spec(),
                start == old(self).elems(),
                n == start.len(),
                n == shape_size(shape@),
                rv.elems().len() == n,
                forall|k: int| 0 <= k < n ==> #[trigger] rv.elems()[k] == rhs.bcast(shape@, k),
                forall|k: int| 0 <= k < n ==> (#[trigger] T::spec_quot(start[k], rhs.bcast(shape@, k))) is Some,
                i <= n,
                self.elems().len() == n,
                forall|k: int| 0 <= k < i ==> #[trigger] self.elems()[k] == quotient(start[k], rhs.bcast(shape@, k)),
                forall|k: int| i <= k < n ==> #[trigger] self.elems()[k] == start[k],
            decreases n - i,
        {
            let cur = self.as_slice()[i];
            assert(T::spec_quot(start[i as int], rhs.bcast(shape@, i as int)) is Some);
            let v = T::checked_quot(cur, rv.elem(i)).unwrap();
            self.set_elem(i, v);
            i += 1;
        }
        Ok(())
    }

    /// Add the broadcast `rhs` in place; integers wrap around on overflow.
    pub fn add_assign(&mut self, rhs: &Array<T>) -> (r: Result<(), NumRsError>)
        requires
            old(self).wf(),
            rhs.wf(),
        ensures
            final(self).wf(),
            final(self).shape_spec() == old(self).shape_spec(),
            match r {
                Ok(_) => {
                    &&& broadcasts_to(rhs.shape_spec(), old(self).shape_spec())
                    &&& final(self).elems().len() == old(self).elems().len()
                    &&& forall|i: int|
                        0 <= i < old(self).elems().len() ==> #[trigger] final(self).elems()[i] == T::spec_add(
                            old(self).elems()[i],
                            rhs.bcast(old(self).shape_spec(), i),
                        )
                },
                Err(e) => !broadcasts_to(rhs.shape_spec(), old(self).shape_spec()) && (e matches NumRsError::BroadcastMismatch {
                    left: l,
                    right: rr,
                } && l@ == rhs.shape_spec() && rr@ == old(self).shape_spec())
                    && final(self).elems() == old(self).elems(),
            },
    {
        self.assign_with(rhs, BinaryOp::Add)
    }

    /// Subtract the broadcast `rhs` in place; integers wrap around on overflow.
    pub fn sub_assign(&mut self, rhs: &Array<T>) -> (r: Result<(), NumRsError>)
        requires
            old(self).wf(),
            rhs.wf(),
        ensures
            final(self).wf(),
            final(self).shape_spec() == old(self).shape_spec(),
            match r {
                Ok(_) => {
                    &&& broadcasts_to(rhs.shape_spec(), old(self).shape_spec())
                    &&& final(self).elems().len() == old(self).elems().len()
                    &&& forall|i: int|
                        0 <= i < old(self).elems().len() ==> #[trigger] final(self).elems()[i] == T::spec_sub(
                            old(self).elems()[i],
                            rhs.bcast(old(self).shape_spec(), i),
                        )
                },
                Err(e) => !broadcasts_to(rhs.shape_spec(), old(self).shape_spec()) && (e matches NumRsError::BroadcastMismatch {
                    left: l,
                    right: rr,
                } && l@ == rhs.shape_spec() && rr@ == old(self).shape_spec())
                    && final(self).elems() == old(self).elems(),
            },
    {
        self.assign_with(rhs, BinaryOp::Sub)
    }

    /// Multiply by the broadcast `rhs` in place; integers wrap around on overflow.
    pub fn mul_assign(&mut self, rhs: &Array<T>) -> (r: Result<(), NumRsError>)
        requires
            old(self).wf(),
            rhs.wf(),
        ensures
            final(self).wf(),
            final(self).shape_spec() == old(self).shape_spec(),
            match r {
                Ok(_) => {
                    &&& broadcasts_to(rhs.shape_spec(), old(self).shape_spec())
                    &&& final(self).elems().len() == old(self).elems().len()
                    &&& forall|i: int|
                        0 <= i < old(self).elems().len() ==> #[trigger] final(self).elems()[i] == T::spec_mul(
                            old(self).elems()[i],
                            rhs.bcast(old(self).shape_spec(), i),
                        )
                },
                Err(e) => !broadcasts_to(rhs.shape_spec(), old(self).shape_spec()) && (e matches NumRsError::BroadcastMismatch {
                    left: l,
                    right: rr,
                } && l@ == rhs.shape_spec() && rr@ == old(self).shape_spec())
                    && final(self).elems() == old(self).elems(),
            },
    {
        self.assign_with(rhs, BinaryOp::Mul)
    }

    /// Add `values[k]` (wrapping) to the element at flat position `indices[k]`
    /// (negative counts from the end), in order; repeated positions accumulate
    /// and a bad index stops the updates there.
    pub fn add_at(&mut self, indices: &[isize], values: &[T]) -> (r: Result<(), NumRsError>)
        requires
            old(self).wf(),
        ensures
            final(self).wf(),
            final(self).shape_spec() == old(self).shape_spec(),
            match r {
                Ok(_) => indices@.len() == values@.len() && (forall|k: int|
                    0 <= k < indices@.len() ==> take_ok(#[trigger] indices@[k], old(self).elems().len() as int))
                    && final(self).elems() == add_at_elems(old(self).elems(), indices@, values@, indices@.len() as int),
                Err(e) => if indices@.len() != values@.len() {
                    invalid_shape_with(e, value_count_text("add_at"@, indices@.len(), values@.len()))
                        && final(self).elems() == old(self).elems()
                } else {
                    exists|j: int|
                        #[trigger] first_bad_take(indices@, old(self).elems().len() as int, j) && e == (NumRsError::IndexOutOfBounds {
                            axis: 0,
                            index: indices@[j],
                            len: old(self).elems().len() as usize,
                        }) && final(self).elems() == add_at_elems(old(self).elems(), indices@, values@, j)
                },
            },
    {
        if indices.len() != values.len() {
            return Err(value_count_error("add_at", indices.len(), values.len()));
        }
        self.forget_uniform();
        let len = self.len();
        let ghost start = self.elems();
        let mut j: usize = 0;
        while j < indices.len()
            invariant
                self.wf(),
                self.shape_spec() == old(self).shape_spec(),
                start == old(self).elems(),
                len == start.len(),
                indices@.len() == values@.len(),
                j <= indices@.len(),
                forall|k: int| 0 <= k < j ==> take_ok(#[trigger] indices@[k], len as int),
                self.elems() == add_at_elems(start, indices@, values@, j as int),
            decreases indices@.len() - j,
        {
            proof {
                lemma_add_at_elems_len(start, indices@, values@, j as int);
            }
            let target = match normalize_take_index(indices[j], 0, len) {
                Ok(t) => t,
                Err(e) => {
                    proof {
                        assert(first_bad_take(indices@, len as int, j as int));
                    }
                    return Err(e);
                },
            };
            let cur = self.as_slice()[target];
            self.set_elem(target, T::add_wrap(cur, values[j]));
            j += 1;
        }
        Ok(())
    }
}

impl<T: Ordered> Array<T> {
    /// Raise the element at flat position `indices[k]` (negative counts from the
    /// end) to `values[k]` when that is larger, in order; a bad index stops the
    /// updates there.
    pub fn maximum_at(&mut self, indices: &[isize], values: &[T]) -> (r: Result<(), NumRsError>)
        requires
            old(self).wf(),
        ensures
            final(self).wf(),
            final(self).shape_spec() == old(self).shape_spec(),
            match r {
                Ok(_) => indices@.len() == values@.len() && (forall|k: int|
                    0 <= k < indices@.len() ==> take_ok(#[trigger] indices@[k], old(self).elems().len() as int))
                    && final(self).elems() == maximum_at_elems(old(self).elems(), indices@, values@, indices@.len() as int),
                Err(e) => if indices@.len() != values@.len() {
                    invalid_shape_with(e, value_count_text("maximum_at"@, indices@.len(), values@.len()))
                        && final(self).elems() == old(self).elems()
                } else {
                    exists|j: int|
                        #[trigger] first_bad_take(indices@, old(self).elems().len() as int, j) && e == (NumRsError::IndexOutOfBounds {
                            axis: 0,
                            index: indices@[j],
                            len: old(self).elems().len() as usize,
                        }) && final(self).elems() == maximum_at_elems(old(self).elems(), indices@, values@, j)
                },
            },
    {
        if indices.len() != values.len() {
            return Err(value_count_error("maximum_at", indices.len(), values.len()));
        }
        self.forget_uniform();
        let len = self.len();
        let ghost start = self.elems();
        let mut j: usize = 0;
        while j < indices.len()
            invariant
                self.wf(),
                self.shape_spec() == old(self).shape_spec(),
                start == old(self).elems(),
                len == start.len(),
                indices@.len() == values@.len(),
                j <= indices@.len(),
                forall|k: int| 0 <= k < j ==> take_ok(#[trigger] indices@[k], len as int),
                self.elems() == maximum_at_elems(start, indices@, values@, j as int),
            decreases indices@.len() - j,
        {
            proof {
                lemma_maximum_at_elems_len(start, indices@, values@, j as int);
            }
            let target = match normalize_take_index(indices[j], 0, len) {
                Ok(t) => t,
                Err(e) => {
                    proof {
                        assert(first_bad_take(indices@, len as int, j as int));
                    }
                    return Err(e);
                },
            };
            let cur = self.as_slice()[target];
            let v = values[j];
            if T::less(cur, v) {
                self.set_elem(target, v);
            }
            j += 1;
        }
        Ok(())
    }
}

} // verus!
