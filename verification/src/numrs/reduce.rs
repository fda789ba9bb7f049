use vstd::prelude::*;
use crate::numrs::error::NumRsError;
use crate::numrs::array::{Array, ArrayView};
use crate::numrs::element::{Ordered, Scalar};
use crate::numrs::shape::{lemma_shape_size_nonneg, normalize_axis, shape_size, size_fits, size_of_shape};
use crate::numrs::layout::{in_bounds, to_ints, unravel, unravel_index, lemma_positive_size_dims, lemma_unravel_in_bounds};
use crate::numrs::ops::{binary_error, binary_ok, fits_array, layout_at};
use crate::numrs::shape::broadcast_shape_spec;
use crate::numrs::contract::norm_axis;

verus! {

/// The wrapping sum of `s`, accumulated from the first element on.
pub open spec fn wsum<T: Scalar>(s: Seq<T>) -> T
    decreases s.len(),
{
    if s.len() == 0 {
        T::spec_zero()
    } else {
        T::spec_add(wsum(s.drop_last()), s.last())
    }
}

/// The wrapping product of `s`, accumulated from the first element on.
pub open spec fn wprod<T: Scalar>(s: Seq<T>) -> T
    decreases s.len(),
{
    if s.len() == 0 {
        T::spec_one()
    } else {
        T::spec_mul(wprod(s.drop_last()), s.last())
    }
}

/// Scanning `s` from the front and keeping the current best, replacing it only by
/// a strictly smaller (`smallest`) or strictly larger element: the position kept.
pub open spec fn best_index<T: Ordered>(s: Seq<T>, smallest: bool) -> int
    decreases s.len(),
{
    if s.len() <= 1 {
        0
    } else {
        let k = best_index(s.drop_last(), smallest);
        let better = if smallest {
            T::spec_lt(s.last(), s[k])
        } else {
            T::spec_lt(s[k], s.last())
        };
        if better {
            s.len() - 1
        } else {
            k
        }
    }
}

/// Whether every element of `s` is true.
pub open spec fn all_true(s: Seq<bool>) -> bool {
    forall|i: int| 0 <= i < s.len() ==> #[trigger] s[i]
}

/// The position the scan keeps holds an extreme element, and the first one:
/// no element is strictly better, and every earlier element is strictly worse.
pub proof fn lemma_best_index<T: Ordered>(s: Seq<T>, smallest: bool)
    requires
        s.len() > 0,
    ensures
        0 <= best_index(s, smallest) < s.len(),
        forall|j: int|
            0 <= j < s.len() ==> !(if smallest {
                T::spec_lt(#[trigger] s[j], s[best_index(s, smallest)])
            } else {
                T::spec_lt(s[best_index(s, smallest)], s[j])
            }),
        forall|j: int|
            0 <= j < best_index(s, smallest) ==> (if smallest {
                T::spec_lt(s[best_index(s, smallest)], #[trigger] s[j])
            } else {
                T::spec_lt(#[trigger] s[j], s[best_index(s, smallest)])
            }),
    decreases s.len(),
{
    if s.len() > 1 {
        let p = s.drop_last();
        lemma_best_index(p, smallest);
        let k = best_index(p, smallest);
        let b = best_index(s, smallest);
        assert forall|j: int| 0 <= j < s.len() implies !(if smallest {
            T::spec_lt(#[trigger] s[j], s[b])
        } else {
            T::spec_lt(s[b], s[j])
        }) by {
            T::lemma_order(s[j], s[k], s.last());
            T::lemma_order(s[j], s.last(), s[k]);
            T::lemma_order(s[k], s.last(), s[j]);
            T::lemma_order(s.last(), s[k], s[j]);
            T::lemma_order(s[j], s[j], s[j]);
            if j < s.len() - 1 {
                assert(s[j] == p[j]);
            }
        }
        assert forall|j: int| 0 <= j < b implies (if smallest {
            T::spec_lt(s[b], #[trigger] s[j])
        } else {
            T::spec_lt(#[trigger] s[j], s[b])
        }) by {
            assert(s[j] == p[j]);
            T::lemma_order(s.last(), s[k], s[j]);
            T::lemma_order(s[j], s[k], s.last());
            T::lemma_order(s[k], s[j], s[j]);
            T::lemma_order(s[j], s.last(), s[k]);
            T::lemma_order(s[k], s.last(), s[j]);
            if b == s.len() - 1 {
                assert(j < s.len() - 1);
                if j != k {
                    assert(j < k || k < j);
                }
            }
        }
    } else {
        T::lemma_order(s[0], s[0], s[0]);
    }
}

impl<'a, T: Scalar> ArrayView<'a, T> {
    /// Wrapping sum of all elements (0 for an empty view).
    pub fn sum_all(&self) -> (r: Result<T, NumRsError>)
        requires
            self.wf(),
        ensures
            r == Ok::<T, NumRsError>(wsum(self.elems())),
    {
        let n = self.len();
        let mut acc = T::zero();
        let mut i: usize = 0;
        while i < n
            invariant
                self.wf(),
                n == self.elems().len(),
                i <= n,
                acc == wsum(self.elems().take(i as int)),
            decreases n - i,
        {
            let ghost p = self.elems().take(i as int + 1);
            assert(p.drop_last() =~= self.elems().take(i as int));
            acc = T::add_wrap(acc, self.elem(i));
            i += 1;
        }
        assert(self.elems().take(n as int) =~= self.elems());
        Ok(acc)
    }

    /// Wrapping product of all elements (1 for an empty view).
    pub fn prod_all(&self) -> (r: Result<T, NumRsError>)
        requires
            self.wf(),
        ensures
            r == Ok::<T, NumRsError>(wprod(self.elems())),
    {
        let n = self.len();
        let mut acc = T::one();
        let mut i: usize = 0;
        while i < n
            invariant
                self.wf(),
                n == self.elems().len(),
                i <= n,
                acc == wprod(self.elems().take(i as int)),
            decreases n - i,
        {
            let ghost p = self.elems().take(i as int + 1);
            assert(p.drop_last() =~= self.elems().take(i as int));
            acc = T::mul_wrap(acc, self.elem(i));
            i += 1;
        }
        assert(self.elems().take(n as int) =~= self.elems());
        Ok(acc)
    }
}

impl<'a, T: Ordered> ArrayView<'a, T> {
    /// Row-major position of the element the front-to-back scan keeps.
    fn scan_best(&self, smallest: bool) -> (r: usize)
        requires
            self.wf(),
            self.elems().len() > 0,
        ensures
            r == best_index(self.elems(), smallest),
    {
        let n = self.len();
        let mut best: usize = 0;
        let mut best_value = self.elem(0);
        let mut i: usize = 1;
        while i < n
            invariant
                self.wf(),
                n == self.elems().len(),
                1 <= i <= n,
                best == best_index(self.elems().take(i as int), smallest),
                best < i,
                best_value == self.elems()[best as int],
            decreases n - i,
        {
            let ghost p = self.elems().take(i as int + 1);
            assert(p.drop_last() =~= self.elems().take(i as int));
            proof {
                lemma_best_index(self.elems().take(i as int), smallest);
            }
            let v = self.elem(i);
            let better = if smallest {
                T::less(v, best_value)
            } else {
                T::less(best_value, v)
            };
            if better {
                best = i;
                best_value = v;
            }
            i += 1;
        }
        assert(self.elems().take(n as int) =~= self.elems());
        best
    }

    /// The smallest element; `EmptyReduction` for an empty view.
    pub fn min_all(&self) -> (r: Result<T, NumRsError>)
        requires
            self.wf(),
        ensures
            match r {
                Ok(v) => self.elems().len() > 0 && v == self.elems()[best_index(self.elems(), true)],
                Err(e) => self.elems().len() == 0 && e == NumRsError::EmptyReduction,
            },
    {
        if self.is_empty() {
            return Err(NumRsError::EmptyReduction);
        }
        let k = self.scan_best(true);
        proof {
            lemma_best_index(self.elems(), true);
        }
        Ok(self.elem(k))
    }

    /// The largest element; `EmptyReduction` for an empty view.
    pub fn max_all(&self) -> (r: Result<T, NumRsError>)
        requires
            self.wf(),
        ensures
            match r {
                Ok(v) => self.elems().len() > 0 && v == self.elems()[best_index(self.elems(), false)],
                Err(e) => self.elems().len() == 0 && e == NumRsError::EmptyReduction,
            },
    {
        if self.is_empty() {
            return Err(NumRsError::EmptyReduction);
        }
        let k = self.scan_best(false);
        proof {
            lemma_best_index(self.elems(), false);
        }
        Ok(self.elem(k))
    }

    /// Row-major position of the first largest element; `EmptyReduction` for an empty view.
    pub fn argmax(&self) -> (r: Result<usize, NumRsError>)
        requires
            self.wf(),
        ensures
            match r {
                Ok(k) => self.elems().len() > 0 && k == best_index(self.elems(), false),
                Err(e) => self.elems().len() == 0 && e == NumRsError::EmptyReduction,
            },
    {
        if self.is_empty() {
            return Err(NumRsError::EmptyReduction);
        }
        Ok(self.scan_best(false))
    }

    /// Row-major position of the first smallest element; `EmptyReduction` for an empty view.
    pub fn argmin(&self) -> (r: Result<usize, NumRsError>)
        requires
            self.wf(),
        ensures
            match r {
                Ok(k) => self.elems().len() > 0 && k == best_index(self.elems(), true),
                Err(e) => self.elems().len() == 0 && e == NumRsError::EmptyReduction,
            },
    {
        if self.is_empty() {
            return Err(NumRsError::EmptyReduction);
        }
        Ok(self.scan_best(true))
    }
}

impl<'a> ArrayView<'a, bool> {
    /// Whether every element is true (true for an empty view).
    pub fn prod_all(&self) -> (r: Result<bool, NumRsError>)
        requires
            self.wf(),
        ensures
            r == Ok::<bool, NumRsError>(all_true(self.elems())),
    {
        let n = self.len();
        let mut i: usize = 0;
        while i < n
            invariant
                self.wf(),
                n == self.elems().len(),
                i <= n,
                forall|j: int| 0 <= j < i ==> #[trigger] self.elems()[j],
            decreases n - i,
        {
            if !self.elem(i) {
                return Ok(false);
            }
            i += 1;
        }
        Ok(true)
    }
}

/// `idx` with coordinate `k` inserted at position `axis`.
fn insert_coord(idx: &[usize], axis: usize, k: usize) -> (r: Vec<usize>)
    requires
        axis <= idx@.len(),
    ensures
        to_ints(r@) == to_ints(idx@).insert(axis as int, k as int),
        r@.len() == idx@.len() + 1,
{
    let mut out: Vec<usize> = Vec::new();
    let mut j: usize = 0;
    while j < idx.len()
        invariant
            j <= idx@.len(),
            axis <= idx@.len(),
            out@.len() == (if j <= axis { j as int } else { j + 1 }),
            forall|t: int| 0 <= t < j && t < axis ==> #[trigger] out@[t] == idx@[t],
            forall|t: int| axis <= t < j ==> #[trigger] out@[t + 1] == idx@[t],
            j > axis ==> out@[axis as int] == k,
        decreases idx@.len() - j,
    {
        if j == axis {
            out.push(k);
        }
        out.push(idx[j]);
        j += 1;
    }
    if axis == idx.len() {
        out.push(k);
    }
    proof {
        let ti = to_ints(idx@);
        ti.insert_ensures(axis as int, k as int);
        let ins = ti.insert(axis as int, k as int);
        assert forall|t: int| 0 <= t < ins.len() implies #[trigger] to_ints(out@)[t] == ins[t] by {
            if t < axis {
                assert(ins[t] == ti[t]);
            } else if t > axis {
                assert(ins[(t - 1) + 1] == ti[t - 1]);
                assert(out@[(t - 1) + 1] == idx@[t - 1]);
            }
        }
        assert(to_ints(out@) =~= ins);
    }
    out
}

/// The wrapping sum along axis `axis` of the layout `l` at output position `o`
/// (row-major among the remaining axes).
pub open spec fn axis_sum<T: Scalar>(l: (Seq<T>, Seq<usize>, Seq<isize>, int), axis: int, o: int, n: int) -> T {
    let out = l.1.remove(axis);
    wsum(Seq::new(n as nat, |k: int| layout_at(l, unravel(out, o).insert(axis, k))))
}

impl<'a, T: Scalar> ArrayView<'a, T> {
    /// Wrapping sums along `axis` (negative counts from the end); the result has
    /// the remaining axes.
    pub fn sum_axis(&self, axis: isize) -> (r: Result<Array<T>, NumRsError>)
        requires
            self.wf(),
        ensures
            match r {
                Ok(a) => {
                    let ax = norm_axis(axis, self.shape_spec().len() as int);
                    let out = self.shape_spec().remove(ax);
                    &&& 0 <= ax < self.shape_spec().len()
                    &&& fits_array(out)
                    &&& a.wf()
                    &&& a.shape_spec() == out
                    &&& a.elems().len() == shape_size(out)
                    &&& forall|o: int|
                        0 <= o < shape_size(out) ==> #[trigger] a.elems()[o] == axis_sum(
                            self.layout(),
                            ax,
                            o,
                            self.shape_spec()[ax] as int,
                        )
                },
                Err(e) => {
                    let ax = norm_axis(axis, self.shape_spec().len() as int);
                    if !(0 <= ax < self.shape_spec().len()) {
                        e == (NumRsError::AxisOutOfBounds { axis, ndim: self.shape_spec().len() as usize })
                    } else {
                        !fits_array(self.shape_spec().remove(ax)) && e == NumRsError::ShapeOverflow
                    }
                },
            },
    {
        let shape = self.shape();
        let ax = normalize_axis(axis, shape.len())?;
        let mut out: Vec<usize> = Vec::new();
        let mut j: usize = 0;
        while j < shape.len()
            invariant
                j <= shape@.len(),
                ax < shape@.len(),
                out@ == if j <= ax {
                    shape@.take(j as int)
                } else {
                    shape@.take(j as int).remove(ax as int)
                },
            decreases shape@.len() - j,
        {
            if j != ax {
                out.push(shape[j]);
            }
            j += 1;
            proof {
                if j <= ax {
                    assert(out@ =~= shape@.take(j as int));
                } else if j == ax + 1 {
                    assert(out@ =~= shape@.take(j as int).remove(ax as int));
                } else {
                    assert(out@ =~= shape@.take(j as int).remove(ax as int));
                }
            }
        }
        assert(shape@.take(shape@.len() as int) =~= shape@);
        let total = match size_of_shape(&out) {
            Ok(v) => v,
            Err(_) => {
                return Err(NumRsError::ShapeOverflow);
            },
        };
        if total > isize::MAX as usize {
            return Err(NumRsError::ShapeOverflow);
        }
        let dim = shape[ax];
        let mut data: Vec<T> = Vec::new();
        let mut o: usize = 0;
        while o < total
            invariant
                self.wf(),
                shape@ == self.shape_spec(),
                ax < shape@.len(),
                out@ == shape@.remove(ax as int),
                total == shape_size(out@),
                dim == shape@[ax as int],
                o <= total,
                data@.len() == o,
                forall|q: int| 0 <= q < o ==> #[trigger] data@[q] == axis_sum(self.layout(), ax as int, q, dim as int),
            decreases total - o,
        {
            proof {
                lemma_positive_size_dims(out@);
                lemma_unravel_in_bounds(out@, o as int);
            }
            let idx = unravel_index(&out, o);
            let ghost terms = Seq::new(dim as nat, |k: int| layout_at(self.layout(), unravel(out@, o as int).insert(ax as int, k)));
            let mut acc = T::zero();
            let mut k: usize = 0;
            while k < dim
                invariant
                    self.wf(),
                    shape@ == self.shape_spec(),
                    ax < shape@.len(),
                    out@ == shape@.remove(ax as int),
                    dim == shape@[ax as int],
                    to_ints(idx@) == unravel(out@, o as int),
                    in_bounds(to_ints(idx@), out@),
                    terms == Seq::new(dim as nat, |t: int| layout_at(self.layout(), unravel(out@, o as int).insert(ax as int, t))),
                    k <= dim,
                    acc == wsum(terms.take(k as int)),
                decreases dim - k,
            {
                let full = insert_coord(&idx, ax, k);
                proof {
                    let fi = to_ints(full@);
                    assert forall|t: int| 0 <= t < fi.len() implies 0 <= #[trigger] fi[t] < shape@[t] by {
                        if t < ax {
                            assert(fi[t] == to_ints(idx@)[t]);
                            assert(out@[t] == shape@[t]);
                        } else if t > ax {
                            assert(fi[t] == to_ints(idx@)[t - 1]);
                            assert(out@[t - 1] == shape@[t]);
                        }
                    }
                    assert(in_bounds(fi, shape@));
                    assert(terms.take(k as int + 1).drop_last() =~= terms.take(k as int));
                }
                let v = self.elem_at(&full);
                acc = T::add_wrap(acc, v);
                k += 1;
            }
            assert(terms.take(dim as int) =~= terms);
            data.push(acc);
            o += 1;
        }
        proof {
            assert(shape@.len() < isize::MAX);
            assert forall|t: int| 0 <= t < out@.len() implies #[trigger] out@[t] <= isize::MAX by {
                if t < ax {
                    assert(out@[t] == shape@[t]);
                } else {
                    assert(out@[t] == shape@[t + 1]);
                }
            }
        }
        Ok(Array::from_vec_trusted(out, data))
    }
}

impl<'a, T: Scalar> ArrayView<'a, T> {
    /// Sum, wrapping on overflow, of `f` applied to the broadcast operands.
    pub fn elementwise_binary_sum<F: Fn(T, T) -> T>(&self, rhs: &ArrayView<'_, T>, f: F) -> (r: Result<T, NumRsError>)
        requires
            self.wf(),
            rhs.wf(),
            forall|x: T, y: T| f.requires((x, y)),
        ensures
            match r {
                Ok(v) => {
                    let out = broadcast_shape_spec(self.shape_spec(), rhs.shape_spec());
                    &&& binary_ok(self.shape_spec(), rhs.shape_spec())
                    &&& exists|s: Seq<T>|
                        s.len() == shape_size(out) && v == wsum(s) && (forall|i: int|
                            0 <= i < s.len() ==> f.ensures((self.bcast(out, i), rhs.bcast(out, i)), #[trigger] s[i]))
                },
                Err(e) => binary_error(self.shape_spec(), rhs.shape_spec(), e),
            },
    {
        let a = self.elementwise_binary(rhs, f)?;
        let v = a.view();
        let total = v.sum_all();
        proof {
            let out = broadcast_shape_spec(self.shape_spec(), rhs.shape_spec());
            assert(a.elems().len() == shape_size(out));
            assert(forall|i: int|
                0 <= i < a.elems().len() ==> f.ensures((self.bcast(out, i), rhs.bcast(out, i)), #[trigger] a.elems()[i]));
        }
        total
    }

    /// Wrapping sum of the elementwise sums of the broadcast operands.
    pub fn add_sum(&self, rhs: &ArrayView<'_, T>) -> (r: Result<T, NumRsError>)
        requires
            self.wf(),
            rhs.wf(),
        ensures
            match r {
                Ok(v) => {
                    let out = broadcast_shape_spec(self.shape_spec(), rhs.shape_spec());
                    &&& binary_ok(self.shape_spec(), rhs.shape_spec())
                    &&& v == wsum(Seq::new(shape_size(out) as nat, |i: int| T::spec_add(self.bcast(out, i), rhs.bcast(out, i))))
                },
                Err(e) => binary_error(self.shape_spec(), rhs.shape_spec(), e),
            },
    {
        let a = self.add(rhs)?;
        let v = a.view();
        let total = v.sum_all();
        proof {
            let out = broadcast_shape_spec(self.shape_spec(), rhs.shape_spec());
            assert(a.elems() =~= Seq::new(shape_size(out) as nat, |i: int| T::spec_add(self.bcast(out, i), rhs.bcast(out, i))));
        }
        total
    }
}

} // verus!
