use vstd::prelude::*;
use crate::numrs::error::NumRsError;
use crate::display::{push_decimal, push_str, string_from_chars};
use crate::text::decimal_text;
use crate::numrs::array::{Array, ArrayView, copy_usizes, permute_axes_result};
use crate::numrs::element::Scalar;
use crate::numrs::layout::{
    in_bounds, is_axis_permutation, lemma_positive_size_dims, lemma_unravel_in_bounds, permute_seq, to_ints, unpermute_index,
    unravel, unravel_index,
};
use crate::numrs::ops::{fits_array, layout_at};
use crate::numrs::shape::{lemma_shape_size_nonneg, lemma_size_fits_prefix, normalize_axis, shape_size, size_fits, size_of_shape};

verus! {

/// `axis` resolved against `n` axes (negative counts from the end).
pub open spec fn norm_axis(axis: isize, n: int) -> int {
    if axis < 0 {
        n + axis
    } else {
        axis as int
    }
}

/// Each axis list entry resolved against `n` axes.
pub open spec fn norm_axes(axes: Seq<isize>, n: int) -> Seq<usize> {
    Seq::new(axes.len(), |j: int| norm_axis(axes[j], n) as usize)
}

/// The first `j` entries of `axes` name distinct axes in range.
pub open spec fn axes_prefix_ok(axes: Seq<isize>, n: int, j: int) -> bool {
    &&& forall|i: int| 0 <= i < j ==> 0 <= #[trigger] norm_axis(axes[i], n) < n
    &&& forall|i: int, k: int| 0 <= i < k < j ==> norm_axis(#[trigger] axes[i], n) != norm_axis(#[trigger] axes[k], n)
}

/// Every entry of `axes` names an axis in range, and no axis twice.
pub open spec fn unique_axes_ok(axes: Seq<isize>, n: int) -> bool {
    axes_prefix_ok(axes, n, axes.len() as int)
}

/// The error for the first entry of `axes` that is out of range or repeats an axis.
pub open spec fn unique_axes_error(axes: Seq<isize>, n: int, e: NumRsError) -> bool {
    exists|j: int|
        0 <= j < axes.len() && #[trigger] axes_prefix_ok(axes, n, j) && !axes_prefix_ok(axes, n, j + 1) && if !(0
            <= norm_axis(axes[j], n) < n) {
            e == (NumRsError::AxisOutOfBounds { axis: axes[j], ndim: n as usize })
        } else {
            e == NumRsError::DuplicateAxis(norm_axis(axes[j], n) as usize)
        }
}

/// Resolve each axis against `ndim` axes; `AxisOutOfBounds` or `DuplicateAxis`
/// for the first entry out of range or naming an axis again.
pub fn normalize_unique_axes(axes: &[isize], ndim: usize) -> (r: Result<Vec<usize>, NumRsError>)
    requires
        ndim <= isize::MAX,
    ensures
        match r {
            Ok(v) => unique_axes_ok(axes@, ndim as int) && v@ == norm_axes(axes@, ndim as int),
            Err(e) => !unique_axes_ok(axes@, ndim as int) && unique_axes_error(axes@, ndim as int, e),
        },
{
    let mut out: Vec<usize> = Vec::new();
    let mut j: usize = 0;
    while j < axes.len()
        invariant
            ndim <= isize::MAX,
            j <= axes@.len(),
            axes_prefix_ok(axes@, ndim as int, j as int),
            out@ == norm_axes(axes@.take(j as int), ndim as int),
        decreases axes@.len() - j,
    {
        let a = match normalize_axis(axes[j], ndim) {
            Ok(a) => a,
            Err(e) => {
                proof {
                    assert(!(0 <= norm_axis(axes@[j as int], ndim as int) < ndim));
                    assert(!axes_prefix_ok(axes@, ndim as int, j + 1));
                    assert(!unique_axes_ok(axes@, ndim as int));
                    assert(axes_prefix_ok(axes@, ndim as int, j as int));
                }
                return Err(e);
            },
        };
        let mut k: usize = 0;
        while k < j
            invariant
                k <= j,
                j < axes@.len(),
                ndim <= isize::MAX,
                axes_prefix_ok(axes@, ndim as int, j as int),
                a == norm_axis(axes@[j as int], ndim as int),
                a < ndim,
                out@ == norm_axes(axes@.take(j as int), ndim as int),
                forall|i: int| 0 <= i < k ==> norm_axis(#[trigger] axes@[i], ndim as int) != a,
            decreases j - k,
        {
            if out[k] == a {
                proof {
                    assert(0 <= norm_axis(axes@[k as int], ndim as int) < ndim);
                    assert(out@[k as int] == norm_axis(axes@[k as int], ndim as int));
                    assert(norm_axis(axes@[k as int], ndim as int) == norm_axis(axes@[j as int], ndim as int));
                    assert(!axes_prefix_ok(axes@, ndim as int, j + 1));
                    assert(!unique_axes_ok(axes@, ndim as int));
                    assert(axes_prefix_ok(axes@, ndim as int, j as int));
                }
                return Err(NumRsError::DuplicateAxis(a));
            }
            proof {
                assert(0 <= norm_axis(axes@[k as int], ndim as int) < ndim);
                assert(out@[k as int] == norm_axis(axes@[k as int], ndim as int));
            }
            k += 1;
        }
        out.push(a);
        j += 1;
        assert(out@ =~= norm_axes(axes@.take(j as int), ndim as int));
    }
    assert(axes@.take(axes@.len() as int) =~= axes@);
    Ok(out)
}

/// The axes below `n` that `axes` does not name, in increasing order.
pub open spec fn free_axes(axes: Seq<usize>, n: int) -> Seq<usize>
    decreases n,
{
    if n <= 0 {
        Seq::empty()
    } else if axes.contains((n - 1) as usize) {
        free_axes(axes, n - 1)
    } else {
        free_axes(axes, n - 1).push((n - 1) as usize)
    }
}

pub proof fn lemma_free_axes_facts(axes: Seq<usize>, n: int)
    requires
        n <= usize::MAX + 1,
    ensures
        forall|j: int| 0 <= j < free_axes(axes, n).len() ==> #[trigger] free_axes(axes, n)[j] < n,
        forall|j: int| 0 <= j < free_axes(axes, n).len() ==> !axes.contains(#[trigger] free_axes(axes, n)[j]),
        forall|i: int, j: int|
            0 <= i < j < free_axes(axes, n).len() ==> #[trigger] free_axes(axes, n)[i] < #[trigger] free_axes(
                axes,
                n,
            )[j],
    decreases n,
{
    if n > 0 {
        lemma_free_axes_facts(axes, n - 1);
        let f = free_axes(axes, n - 1);
        let y = (n - 1) as usize;
        if !axes.contains(y) {
            assert(free_axes(axes, n) == f.push(y));
            assert forall|i: int, j: int| 0 <= i < j < f.push(y).len() implies #[trigger] f.push(y)[i] < #[trigger] f.push(
                y,
            )[j] by {
                if j < f.len() {
                    assert(f[i] < f[j]);
                } else {
                    assert(f[i] < n - 1);
                }
            }
        } else {
            assert(free_axes(axes, n) == f);
        }
    }
}

proof fn lemma_free_axes_none(n: int)
    requires
        n <= usize::MAX + 1,
    ensures
        free_axes(Seq::<usize>::empty(), n).len() == if n <= 0 { 0 } else { n },
    decreases n,
{
    if n > 0 {
        lemma_free_axes_none(n - 1);
    }
}

proof fn lemma_free_axes_push(axes: Seq<usize>, x: usize, m: int)
    requires
        !axes.contains(x),
        m <= usize::MAX + 1,
    ensures
        free_axes(axes.push(x), m).len() == free_axes(axes, m).len() - (if m > x { 1int } else { 0int }),
    decreases m,
{
    if m > 0 {
        lemma_free_axes_push(axes, x, m - 1);
        let y = (m - 1) as usize;
        assert(axes.push(x).contains(y) == (axes.contains(y) || y == x)) by {
            if axes.push(x).contains(y) {
                let k = choose|k: int| 0 <= k < axes.push(x).len() && axes.push(x)[k] == y;
                if k < axes.len() {
                    assert(axes[k] == y);
                }
            }
            if axes.contains(y) {
                let k = choose|k: int| 0 <= k < axes.len() && axes[k] == y;
                assert(axes.push(x)[k] == y);
            }
            if y == x {
                assert(axes.push(x)[axes.len() as int] == y);
            }
        }
    }
}

/// Naming `k` distinct axes below `n` leaves `n - k` free ones.
pub proof fn lemma_free_axes_len(axes: Seq<usize>, n: int)
    requires
        0 <= n <= usize::MAX + 1,
        axes.no_duplicates(),
        forall|j: int| 0 <= j < axes.len() ==> #[trigger] axes[j] < n,
    ensures
        free_axes(axes, n).len() + axes.len() == n,
    decreases axes.len(),
{
    if axes.len() == 0 {
        assert(axes =~= Seq::<usize>::empty());
        lemma_free_axes_none(n);
    } else {
        let rest = axes.drop_last();
        let x = axes.last();
        assert(rest.push(x) =~= axes);
        assert(!rest.contains(x)) by {
            if rest.contains(x) {
                let k = choose|k: int| 0 <= k < rest.len() && rest[k] == x;
                assert(axes[k] == axes[axes.len() - 1]);
            }
        }
        assert(rest.no_duplicates()) by {
            assert forall|i: int, j: int| 0 <= i < rest.len() && 0 <= j < rest.len() && i != j implies rest[i]
                != rest[j] by {
                assert(axes[i] != axes[j]);
            }
        }
        lemma_free_axes_len(rest, n);
        lemma_free_axes_push(rest, x, n);
    }
}

/// The free axes followed by the named ones (or the named ones followed by
/// the free ones) list every axis below `n` once.
pub proof fn lemma_free_axes_permutation(axes: Seq<usize>, n: int)
    requires
        0 <= n <= usize::MAX + 1,
        forall|j: int| 0 <= j < axes.len() ==> #[trigger] axes[j] < n,
        forall|i: int, j: int| 0 <= i < j < axes.len() ==> #[trigger] axes[i] != #[trigger] axes[j],
    ensures
        is_axis_permutation(free_axes(axes, n) + axes, n),
        is_axis_permutation(axes + free_axes(axes, n), n),
{
    let f = free_axes(axes, n);
    assert(axes.no_duplicates()) by {
        assert forall|i: int, j: int| 0 <= i < axes.len() && 0 <= j < axes.len() && i != j implies axes[i]
            != axes[j] by {
            if i < j {
                assert(axes[i] != axes[j]);
            } else {
                assert(axes[j] != axes[i]);
            }
        }
    }
    lemma_free_axes_len(axes, n);
    lemma_free_axes_facts(axes, n);
    let p = f + axes;
    assert forall|i: int, j: int| 0 <= i < p.len() && 0 <= j < p.len() && i != j implies p[i] != p[j] by {
        if i < f.len() && j < f.len() {
            if i < j {
                assert(f[i] < f[j]);
            } else {
                assert(f[j] < f[i]);
            }
        } else if i >= f.len() && j >= f.len() {
            if i < j {
                assert(axes[i - f.len()] != axes[j - f.len()]);
            } else {
                assert(axes[j - f.len()] != axes[i - f.len()]);
            }
        } else if i < f.len() {
            assert(!axes.contains(f[i]));
            assert(axes[j - f.len()] == p[j]);
        } else {
            assert(!axes.contains(f[j]));
            assert(axes[i - f.len()] == p[i]);
        }
    }
    let q = axes + f;
    assert forall|i: int, j: int| 0 <= i < q.len() && 0 <= j < q.len() && i != j implies q[i] != q[j] by {
        let a = if i < axes.len() { i + f.len() } else { i - axes.len() };
        let b = if j < axes.len() { j + f.len() } else { j - axes.len() };
        assert(q[i] == p[a]);
        assert(q[j] == p[b]);
    }
}

/// Whether `k` is one of `axes`.
fn contains_axis(axes: &[usize], k: usize) -> (r: bool)
    ensures
        r == axes@.contains(k),
{
    let mut i: usize = 0;
    while i < axes.len()
        invariant
            i <= axes@.len(),
            forall|j: int| 0 <= j < i ==> axes@[j] != k,
        decreases axes@.len() - i,
    {
        if axes[i] == k {
            return true;
        }
        i += 1;
    }
    false
}

/// The axes below `ndim` not listed in `axes`, in increasing order.
pub(crate) fn complement_axes(ndim: usize, axes: &[usize]) -> (r: Vec<usize>)
    ensures
        r@ == free_axes(axes@, ndim as int),
{
    let mut out: Vec<usize> = Vec::new();
    let mut k: usize = 0;
    while k < ndim
        invariant
            k <= ndim,
            out@ == free_axes(axes@, k as int),
        decreases ndim - k,
    {
        if !contains_axis(axes, k) {
            out.push(k);
        }
        k += 1;
    }
    out
}

/// The entries of `values` at positions `axes`.
pub(crate) fn gather_usize(values: &[usize], axes: &[usize]) -> (r: Vec<usize>)
    requires
        forall|j: int| 0 <= j < axes@.len() ==> #[trigger] axes@[j] < values@.len(),
    ensures
        r@ == permute_seq(values@, axes@),
{
    let mut out: Vec<usize> = Vec::new();
    let mut j: usize = 0;
    while j < axes.len()
        invariant
            j <= axes@.len(),
            forall|i: int| 0 <= i < axes@.len() ==> #[trigger] axes@[i] < values@.len(),
            out@ == permute_seq(values@, axes@.take(j as int)),
        decreases axes@.len() - j,
    {
        out.push(values[axes[j]]);
        j += 1;
        assert(out@ =~= permute_seq(values@, axes@.take(j as int)));
    }
    assert(axes@.take(axes@.len() as int) =~= axes@);
    out
}

/// `a` followed by `b`.
pub(crate) fn concat_usize(a: &[usize], b: &[usize]) -> (r: Vec<usize>)
    ensures
        r@ == a@ + b@,
{
    let mut out = vstd::slice::slice_to_vec(a);
    let mut j: usize = 0;
    while j < b.len()
        invariant
            j <= b@.len(),
            out@ == a@ + b@.take(j as int),
        decreases b@.len() - j,
    {
        out.push(b[j]);
        j += 1;
        assert(out@ =~= a@ + b@.take(j as int));
    }
    assert(b@.take(b@.len() as int) =~= b@);
    out
}

/// The size of a concatenated shape is the product of the sizes.
pub proof fn lemma_size_concat(a: Seq<usize>, b: Seq<usize>)
    ensures
        shape_size(a + b) == shape_size(a) * shape_size(b),
    decreases b.len(),
{
    if b.len() == 0 {
        assert(a + b =~= a);
    } else {
        lemma_size_concat(a, b.drop_last());
        assert((a + b).drop_last() =~= a + b.drop_last());
        assert((a + b).last() == b.last());
        let x = shape_size(a);
        let y = shape_size(b.drop_last());
        assert(x * y * b.last() == x * (y * b.last())) by (nonlinear_arith);
    }
}

/// The free axes of the left operand followed by its contracted axes.
pub open spec fn td_left_perm(ls: Seq<usize>, la: Seq<usize>) -> Seq<usize> {
    free_axes(la, ls.len() as int) + la
}

/// The contracted axes of the right operand followed by its free axes.
pub open spec fn td_right_perm(rs: Seq<usize>, ra: Seq<usize>) -> Seq<usize> {
    ra + free_axes(ra, rs.len() as int)
}

/// Product term for output cell (`a`, `b`) (row-major positions among the
/// free axes of each side) and contracted position `t`: the left factor has
/// its free axes at `a` and its contracted axes at `t`, the right factor its
/// contracted axes at `t` and its free axes at `b`.
pub open spec fn td_term<T: Scalar>(
    l: (Seq<T>, Seq<usize>, Seq<isize>, int),
    r: (Seq<T>, Seq<usize>, Seq<isize>, int),
    la: Seq<usize>,
    ra: Seq<usize>,
    a: int,
    b: int,
    t: int,
) -> T {
    let lf = permute_seq(l.1, free_axes(la, l.1.len() as int));
    let c = permute_seq(l.1, la);
    let rf = permute_seq(r.1, free_axes(ra, r.1.len() as int));
    T::spec_mul(
        layout_at(l, unpermute_index(unravel(lf, a) + unravel(c, t), td_left_perm(l.1, la))),
        layout_at(r, unpermute_index(unravel(c, t) + unravel(rf, b), td_right_perm(r.1, ra))),
    )
}

/// The wrapping sum of the first `k` terms of output cell (`a`, `b`).
pub open spec fn td_sum<T: Scalar>(
    l: (Seq<T>, Seq<usize>, Seq<isize>, int),
    r: (Seq<T>, Seq<usize>, Seq<isize>, int),
    la: Seq<usize>,
    ra: Seq<usize>,
    a: int,
    b: int,
    k: int,
) -> T
    decreases k,
{
    if k <= 0 {
        T::spec_zero()
    } else {
        T::spec_add(td_sum(l, r, la, ra, a, b, k - 1), td_term(l, r, la, ra, a, b, k - 1))
    }
}

/// The contracted axes of the two operands pair up dimensions of equal length.
pub open spec fn contracted_dims_match(ls: Seq<usize>, rs: Seq<usize>, la: Seq<usize>, ra: Seq<usize>) -> bool {
    forall|j: int| 0 <= j < la.len() ==> ls[#[trigger] la[j] as int] == rs[ra[j] as int]
}

/// What `tensordot_axes` returns for operands with layouts `l` and `r`
/// contracted over `left_axes` and `right_axes`.
pub open spec fn tensordot_result<T: Scalar>(
    l: (Seq<T>, Seq<usize>, Seq<isize>, int),
    r: (Seq<T>, Seq<usize>, Seq<isize>, int),
    left_axes: Seq<isize>,
    right_axes: Seq<isize>,
    res: Result<Array<T>, NumRsError>,
) -> bool {
    let ln = l.1.len() as int;
    let rn = r.1.len() as int;
    let la = norm_axes(left_axes, ln);
    let ra = norm_axes(right_axes, rn);
    let lf = permute_seq(l.1, free_axes(la, ln));
    let c = permute_seq(l.1, la);
    let rf = permute_seq(r.1, free_axes(ra, rn));
    let out = lf + rf;
    let sizes_ok = out.len() < isize::MAX && fits_array(out) && size_fits(c) && size_fits(rf);
    match res {
        Ok(a) => {
            &&& left_axes.len() == right_axes.len()
            &&& unique_axes_ok(left_axes, ln)
            &&& unique_axes_ok(right_axes, rn)
            &&& contracted_dims_match(l.1, r.1, la, ra)
            &&& sizes_ok
            &&& a.wf()
            &&& a.shape_spec() == out
            &&& a.elems().len() == shape_size(lf) * shape_size(rf)
            &&& forall|i: int|
                0 <= i < a.elems().len() ==> #[trigger] a.elems()[i] == td_sum(
                    l,
                    r,
                    la,
                    ra,
                    i / shape_size(rf),
                    i % shape_size(rf),
                    shape_size(c),
                )
        },
        Err(e) => if left_axes.len() != right_axes.len() {
            e matches NumRsError::InvalidShape(m) && m@ == axes_count_text(left_axes.len(), right_axes.len())
        } else if !unique_axes_ok(left_axes, ln) {
            unique_axes_error(left_axes, ln, e)
        } else if !unique_axes_ok(right_axes, rn) {
            unique_axes_error(right_axes, rn, e)
        } else if !contracted_dims_match(l.1, r.1, la, ra) {
            e matches NumRsError::DotShapeMismatch { left: x, right: y } && x@ == l.1 && y@ == r.1
        } else {
            !sizes_ok && e == NumRsError::ShapeOverflow
        },
    }
}

/// The message of unequal axes lists: both counts in decimal.
pub open spec fn axes_count_text(left: nat, right: nat) -> Seq<char> {
    "tensordot expected equal axes lengths, got "@ + decimal_text(left) + " and "@ + decimal_text(right)
}

/// The error for axes lists of different lengths.
fn axes_count_error(left: usize, right: usize) -> (e: NumRsError)
    ensures
        e matches NumRsError::InvalidShape(m) && m@ == axes_count_text(left as nat, right as nat),
{
    let mut out: Vec<char> = Vec::new();
    push_str(&mut out, "tensordot expected equal axes lengths, got ");
    push_decimal(&mut out, left as u128);
    push_str(&mut out, " and ");
    push_decimal(&mut out, right as u128);
    NumRsError::InvalidShape(string_from_chars(&out))
}

/// `a` followed by `b`, as coordinates.
proof fn lemma_to_ints_concat(a: Seq<usize>, b: Seq<usize>)
    ensures
        to_ints(a + b) == to_ints(a) + to_ints(b),
{
    assert(to_ints(a + b) =~= to_ints(a) + to_ints(b));
}

/// A row-major position below the size of a shape unravels to an index in bounds.
proof fn lemma_unravel_below(shape: Seq<usize>, i: int)
    requires
        0 <= i < shape_size(shape),
    ensures
        in_bounds(unravel(shape, i), shape),
{
    lemma_positive_size_dims(shape);
    lemma_unravel_in_bounds(shape, i);
}

impl<'a, T: Scalar> ArrayView<'a, T> {
    /// One output cell of a tensor contraction, read through the permuted
    /// views `lp` (free axes, then contracted) and `rp` (contracted, then free).
    fn tensordot_cell(
        &self,
        rhs: &ArrayView<'_, T>,
        lp: &ArrayView<'_, T>,
        rp: &ArrayView<'_, T>,
        la: Ghost<Seq<usize>>,
        ra: Ghost<Seq<usize>>,
        c: &[usize],
        aidx: &[usize],
        bidx: &[usize],
        Ghost(a): Ghost<int>,
        Ghost(b): Ghost<int>,
        c_len: usize,
    ) -> (r: T)
        requires
            self.wf(),
            rhs.wf(),
            lp.wf(),
            rp.wf(),
            c@ == permute_seq(self.shape_spec(), la@),
            c_len == shape_size(c@),
            permute_axes_result(self.data_spec(), self.shape_spec(), self.strides_spec(), self.offset_spec(), td_left_perm(self.shape_spec(), la@), Ok(*lp)),
            permute_axes_result(rhs.data_spec(), rhs.shape_spec(), rhs.strides_spec(), rhs.offset_spec(), td_right_perm(rhs.shape_spec(), ra@), Ok(*rp)),
            lp.shape_spec() == permute_seq(self.shape_spec(), free_axes(la@, self.shape_spec().len() as int)) + c@,
            rp.shape_spec() == c@ + permute_seq(rhs.shape_spec(), free_axes(ra@, rhs.shape_spec().len() as int)),
            to_ints(aidx@) == unravel(permute_seq(self.shape_spec(), free_axes(la@, self.shape_spec().len() as int)), a),
            to_ints(bidx@) == unravel(permute_seq(rhs.shape_spec(), free_axes(ra@, rhs.shape_spec().len() as int)), b),
            in_bounds(to_ints(aidx@), permute_seq(self.shape_spec(), free_axes(la@, self.shape_spec().len() as int))),
            in_bounds(to_ints(bidx@), permute_seq(rhs.shape_spec(), free_axes(ra@, rhs.shape_spec().len() as int))),
        ensures
            r == td_sum(self.layout(), rhs.layout(), la@, ra@, a, b, c_len as int),
    {
        let ghost lf = permute_seq(self.shape_spec(), free_axes(la@, self.shape_spec().len() as int));
        let ghost rf = permute_seq(rhs.shape_spec(), free_axes(ra@, rhs.shape_spec().len() as int));
        let mut acc = T::zero();
        let mut t: usize = 0;
        while t < c_len
            invariant
                self.wf(),
                rhs.wf(),
                lp.wf(),
                rp.wf(),
                c@ == permute_seq(self.shape_spec(), la@),
                c_len == shape_size(c@),
                lf == permute_seq(self.shape_spec(), free_axes(la@, self.shape_spec().len() as int)),
                rf == permute_seq(rhs.shape_spec(), free_axes(ra@, rhs.shape_spec().len() as int)),
                permute_axes_result(self.data_spec(), self.shape_spec(), self.strides_spec(), self.offset_spec(), td_left_perm(self.shape_spec(), la@), Ok(*lp)),
                permute_axes_result(rhs.data_spec(), rhs.shape_spec(), rhs.strides_spec(), rhs.offset_spec(), td_right_perm(rhs.shape_spec(), ra@), Ok(*rp)),
                lp.shape_spec() == lf + c@,
                rp.shape_spec() == c@ + rf,
                to_ints(aidx@) == unravel(lf, a),
                to_ints(bidx@) == unravel(rf, b),
                in_bounds(to_ints(aidx@), lf),
                in_bounds(to_ints(bidx@), rf),
                t <= c_len,
                acc == td_sum(self.layout(), rhs.layout(), la@, ra@, a, b, t as int),
            decreases c_len - t,
        {
            proof {
                lemma_unravel_below(c@, t as int);
            }
            let cidx = unravel_index(c, t);
            let li = concat_usize(aidx, &cidx);
            let ri = concat_usize(&cidx, bidx);
            proof {
                lemma_to_ints_concat(aidx@, cidx@);
                lemma_to_ints_concat(cidx@, bidx@);
                let lidx = to_ints(li@);
                let ridx = to_ints(ri@);
                assert forall|k: int| 0 <= k < lidx.len() implies 0 <= #[trigger] lidx[k] < lp.shape_spec()[k] by {
                    if k < lf.len() {
                        assert(lidx[k] == to_ints(aidx@)[k]);
                    } else {
                        assert(lidx[k] == to_ints(cidx@)[k - lf.len()]);
                    }
                }
                assert(in_bounds(lidx, lp.shape_spec()));
                assert forall|k: int| 0 <= k < ridx.len() implies 0 <= #[trigger] ridx[k] < rp.shape_spec()[k] by {
                    if k < c@.len() {
                        assert(ridx[k] == to_ints(cidx@)[k]);
                    } else {
                        assert(ridx[k] == to_ints(bidx@)[k - c@.len()]);
                    }
                }
                assert(in_bounds(ridx, rp.shape_spec()));
            }
            let x = lp.elem_at(&li);
            let y = rp.elem_at(&ri);
            acc = T::add_wrap(acc, T::mul_wrap(x, y));
            t += 1;
        }
        acc
    }

    /// Contract `left_axes` of this operand with `right_axes` of `rhs` (paired
    /// in order): the result's axes are the free axes of the left operand, then
    /// those of the right one, each in their given order. Integers wrap
    /// around on overflow.
    #[verifier::rlimit(60)]
    pub fn tensordot_axes(&self, rhs: &ArrayView<'_, T>, left_axes: &[isize], right_axes: &[isize]) -> (r: Result<
        Array<T>,
        NumRsError,
    >)
        requires
            self.wf(),
            rhs.wf(),
        ensures
            tensordot_result(self.layout(), rhs.layout(), left_axes@, right_axes@, r),
    {
        if left_axes.len() != right_axes.len() {
            return Err(axes_count_error(left_axes.len(), right_axes.len()));
        }
        let ln = self.ndim();
        let rn = rhs.ndim();
        let la = normalize_unique_axes(left_axes, ln)?;
        let ra = normalize_unique_axes(right_axes, rn)?;
        let ls = self.shape();
        let rs = rhs.shape();
        proof {
            assert forall|j: int| 0 <= j < la@.len() implies #[trigger] la@[j] < ln by {
                assert(0 <= norm_axis(left_axes@[j], ln as int) < ln);
            }
            assert forall|j: int| 0 <= j < ra@.len() implies #[trigger] ra@[j] < rn by {
                assert(0 <= norm_axis(right_axes@[j], rn as int) < rn);
            }
            assert forall|i: int, j: int| 0 <= i < j < la@.len() implies #[trigger] la@[i] != #[trigger] la@[j] by {
                assert(norm_axis(left_axes@[i], ln as int) != norm_axis(left_axes@[j], ln as int));
                assert(0 <= norm_axis(left_axes@[i], ln as int) < ln);
                assert(0 <= norm_axis(left_axes@[j], ln as int) < ln);
            }
            assert forall|i: int, j: int| 0 <= i < j < ra@.len() implies #[trigger] ra@[i] != #[trigger] ra@[j] by {
                assert(norm_axis(right_axes@[i], rn as int) != norm_axis(right_axes@[j], rn as int));
                assert(0 <= norm_axis(right_axes@[i], rn as int) < rn);
                assert(0 <= norm_axis(right_axes@[j], rn as int) < rn);
            }
        }
        let mut j: usize = 0;
        while j < la.len()
            invariant
                la@.len() == ra@.len(),
                left_axes@.len() == right_axes@.len(),
                unique_axes_ok(left_axes@, self.shape_spec().len() as int),
                unique_axes_ok(right_axes@, rhs.shape_spec().len() as int),
                la@ == norm_axes(left_axes@, self.shape_spec().len() as int),
                ra@ == norm_axes(right_axes@, rhs.shape_spec().len() as int),
                ls@ == self.shape_spec(),
                rs@ == rhs.shape_spec(),
                forall|i: int| 0 <= i < la@.len() ==> #[trigger] la@[i] < ls@.len(),
                forall|i: int| 0 <= i < ra@.len() ==> #[trigger] ra@[i] < rs@.len(),
                j <= la@.len(),
                forall|i: int| 0 <= i < j ==> ls@[#[trigger] la@[i] as int] == rs@[ra@[i] as int],
            decreases la@.len() - j,
        {
            if ls[la[j]] != rs[ra[j]] {
                proof {
                    assert(ls@[la@[j as int] as int] != rs@[ra@[j as int] as int]);
                    assert(!contracted_dims_match(ls@, rs@, la@, ra@));
                }
                return Err(NumRsError::DotShapeMismatch { left: copy_usizes(ls), right: copy_usizes(rs) });
            }
            j += 1;
        }
        let lfree = complement_axes(ln, &la);
        let rfree = complement_axes(rn, &ra);
        proof {
            lemma_free_axes_facts(la@, ln as int);
            lemma_free_axes_facts(ra@, rn as int);
            lemma_free_axes_permutation(la@, ln as int);
            lemma_free_axes_permutation(ra@, rn as int);
        }
        let lf = gather_usize(ls, &lfree);
        let c = gather_usize(ls, &la);
        let rf = gather_usize(rs, &rfree);
        let out = concat_usize(&lf, &rf);
        proof {
            if size_fits(out@) {
                assert(out@.take(lf@.len() as int) =~= lf@);
                lemma_size_fits_prefix(out@, lf@.len() as int);
            }
        }
        if out.len() >= isize::MAX as usize {
            return Err(NumRsError::ShapeOverflow);
        }
        let out_len = size_of_shape(&out)?;
        let c_len = size_of_shape(&c)?;
        let lf_len = size_of_shape(&lf)?;
        let rf_len = size_of_shape(&rf)?;
        let lperm = concat_usize(&lfree, &la);
        let rperm = concat_usize(&ra, &rfree);
        proof {
            lemma_size_concat(lf@, rf@);
            assert(permute_seq(ls@, lperm@) =~= lf@ + c@);
            assert(permute_seq(rs@, rperm@) =~= c@ + rf@);
        }
        if out_len > isize::MAX as usize {
            return Err(NumRsError::ShapeOverflow);
        }
        let lp = match self.permute_axes(&lperm) {
            Ok(v) => v,
            Err(_) => {
                return Err(NumRsError::ShapeOverflow);
            },
        };
        let rp = match rhs.permute_axes(&rperm) {
            Ok(v) => v,
            Err(_) => {
                return Err(NumRsError::ShapeOverflow);
            },
        };
        proof {
            lemma_shape_size_nonneg(lf@);
            lemma_shape_size_nonneg(rf@);
            assert(out@.len() == lf@.len() + rf@.len());
            assert forall|k: int| 0 <= k < out@.len() implies #[trigger] out@[k] <= isize::MAX by {
                if k < lf@.len() {
                    assert(out@[k] == ls@[lfree@[k] as int]);
                } else {
                    assert(out@[k] == rs@[rfree@[k - lf@.len()] as int]);
                }
            }
            assert(lfree@.len() <= ln && rfree@.len() <= rn);
        }
        let mut data: Vec<T> = Vec::new();
        let mut i: usize = 0;
        while i < out_len
            invariant
                self.wf(),
                rhs.wf(),
                lp.wf(),
                rp.wf(),
                la@ == norm_axes(left_axes@, self.shape_spec().len() as int),
                ra@ == norm_axes(right_axes@, rhs.shape_spec().len() as int),
                lf@ == permute_seq(self.shape_spec(), free_axes(la@, self.shape_spec().len() as int)),
                rf@ == permute_seq(rhs.shape_spec(), free_axes(ra@, rhs.shape_spec().len() as int)),
                c@ == permute_seq(self.shape_spec(), la@),
                c_len == shape_size(c@),
                lf_len == shape_size(lf@),
                rf_len == shape_size(rf@),
                out_len == lf_len * rf_len,
                permute_axes_result(self.data_spec(), self.shape_spec(), self.strides_spec(), self.offset_spec(), td_left_perm(self.shape_spec(), la@), Ok(lp)),
                permute_axes_result(rhs.data_spec(), rhs.shape_spec(), rhs.strides_spec(), rhs.offset_spec(), td_right_perm(rhs.shape_spec(), ra@), Ok(rp)),
                lp.shape_spec() == lf@ + c@,
                rp.shape_spec() == c@ + rf@,
                i <= out_len,
                data@.len() == i,
                forall|q: int|
                    0 <= q < i ==> #[trigger] data@[q] == td_sum(
                        self.layout(),
                        rhs.layout(),
                        la@,
                        ra@,
                        q / (rf_len as int),
                        q % (rf_len as int),
                        c_len as int,
                    ),
            decreases out_len - i,
        {
            proof {
                assert(rf_len > 0 && (i as int) / (rf_len as int) < lf_len as int) by (nonlinear_arith)
                    requires
                        i < out_len,
                        out_len == lf_len * rf_len,
                ;
            }
            let a = i / rf_len;
            let b = i % rf_len;
            proof {
                lemma_unravel_below(lf@, a as int);
                lemma_unravel_below(rf@, b as int);
            }
            let aidx = unravel_index(&lf, a);
            let bidx = unravel_index(&rf, b);
            let v = self.tensordot_cell(rhs, &lp, &rp, Ghost(la@), Ghost(ra@), &c, &aidx, &bidx, Ghost(a as int), Ghost(b as int), c_len);
            data.push(v);
            i += 1;
        }
        Ok(Array::from_vec_trusted(out, data))
    }
}

} // verus!
