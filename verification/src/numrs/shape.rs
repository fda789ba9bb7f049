use vstd::prelude::*;
use crate::numrs::error::NumRsError;
use crate::display::{list_text, push_decimal, push_signed, push_str, push_usize_list, signed_text, string_from_chars, usize_ints};
use crate::text::decimal_text;

verus! {

/// Number of elements of an array of the given shape (product of the dimensions).
pub open spec fn shape_size(shape: Seq<usize>) -> int
    decreases shape.len(),
{
    if shape.len() == 0 {
        1
    } else {
        shape_size(shape.drop_last()) * shape.last()
    }
}

/// Every running product of the dimensions, taken from the first axis on, fits in `usize`.
pub open spec fn size_fits(shape: Seq<usize>) -> bool
    decreases shape.len(),
{
    if shape.len() == 0 {
        true
    } else {
        size_fits(shape.drop_last()) && shape_size(shape) <= usize::MAX
    }
}

/// Every running product of the dimensions fits in `usize`, or some
/// dimension is zero, so that the shape holds no element.
pub open spec fn fits_or_empty(shape: Seq<usize>) -> bool {
    size_fits(shape) || shape_size(shape) == 0
}

/// Whether the shape's running products fit or it holds no element.
pub fn fits_or_empty_exec(shape: &[usize]) -> (r: bool)
    ensures
        r == fits_or_empty(shape@),
{
    if size_of_shape(shape).is_ok() {
        return true;
    }
    proof {
        lemma_shape_size_zero(shape@);
    }
    let mut i: usize = 0;
    while i < shape.len()
        invariant
            i <= shape.len(),
            forall|k: int| 0 <= k < i ==> shape@[k] != 0,
        decreases shape.len() - i,
    {
        if shape[i] == 0 {
            proof {
                lemma_shape_size_zero(shape@);
                assert(shape@[i as int] == 0);
            }
            return true;
        }
        i += 1;
    }
    false
}

pub proof fn lemma_shape_size_nonneg(shape: Seq<usize>)
    ensures
        shape_size(shape) >= 0,
    decreases shape.len(),
{
    if shape.len() > 0 {
        lemma_shape_size_nonneg(shape.drop_last());
        assert(shape_size(shape.drop_last()) * shape.last() >= 0) by (nonlinear_arith)
            requires
                shape_size(shape.drop_last()) >= 0,
        ;
    }
}

pub proof fn lemma_size_fits_prefix(shape: Seq<usize>, k: int)
    requires
        size_fits(shape),
        0 <= k <= shape.len(),
    ensures
        size_fits(shape.take(k)),
    decreases shape.len(),
{
    if k == shape.len() {
        assert(shape.take(k) =~= shape);
    } else {
        assert(shape.drop_last().take(k) =~= shape.take(k));
        lemma_size_fits_prefix(shape.drop_last(), k);
    }
}

/// The size is zero exactly when some dimension is zero.
pub proof fn lemma_shape_size_zero(shape: Seq<usize>)
    ensures
        shape_size(shape) == 0 <==> exists|k: int| 0 <= k < shape.len() && shape[k] == 0,
    decreases shape.len(),
{
    if shape.len() > 0 {
        let p = shape.drop_last();
        lemma_shape_size_zero(p);
        lemma_shape_size_nonneg(p);
        if shape_size(shape) == 0 {
            if shape.last() != 0 {
                assert(shape_size(p) == 0) by (nonlinear_arith)
                    requires
                        shape_size(p) * shape.last() == 0,
                        shape.last() != 0,
                ;
                let k = choose|k: int| 0 <= k < p.len() && p[k] == 0;
                assert(shape[k] == 0);
            } else {
                assert(shape[shape.len() - 1] == 0);
            }
        } else {
            if exists|k: int| 0 <= k < shape.len() && shape[k] == 0 {
                let k = choose|k: int| 0 <= k < shape.len() && shape[k] == 0;
                if k < shape.len() - 1 {
                    assert(p[k] == 0);
                    assert(shape_size(p) == 0);
                    assert(shape_size(p) * shape.last() == 0) by (nonlinear_arith)
                        requires
                            shape_size(p) == 0,
                    ;
                } else {
                    assert(shape.last() == 0);
                    assert(shape_size(p) * 0 == 0);
                }
            }
        }
    }
}

/// Number of elements of `shape`, or `ShapeOverflow` when a running product
/// of the dimensions exceeds `usize::MAX`.
pub fn size_of_shape(shape: &[usize]) -> (r: Result<usize, NumRsError>)
    ensures
        match r {
            Ok(n) => size_fits(shape@) && n == shape_size(shape@),
            Err(e) => !size_fits(shape@) && e == NumRsError::ShapeOverflow,
        },
{
    let mut acc: usize = 1;
    let mut i: usize = 0;
    while i < shape.len()
        invariant
            0 <= i <= shape.len(),
            size_fits(shape@.take(i as int)),
            acc == shape_size(shape@.take(i as int)),
        decreases shape.len() - i,
    {
        let ghost prefix = shape@.take(i as int + 1);
        assert(prefix.drop_last() =~= shape@.take(i as int));
        assert(prefix.last() == shape@[i as int]);
        match acc.checked_mul(shape[i]) {
            Some(v) => {
                acc = v;
            },
            None => {
                proof {
                    if size_fits(shape@) {
                        lemma_size_fits_prefix(shape@, i + 1);
                    }
                }
                return Err(NumRsError::ShapeOverflow);
            },
        }
        i += 1;
    }
    assert(shape@.take(shape.len() as int) =~= shape@);
    Ok(acc)
}


/// Clamp a mathematical integer into the `isize` range.
pub open spec fn sat_isize(x: int) -> int {
    if x > isize::MAX {
        isize::MAX as int
    } else if x < isize::MIN {
        isize::MIN as int
    } else {
        x
    }
}

/// The running stride product after the axes `a..` have been folded in,
/// starting from 1 at the last axis and saturating at the `isize` bounds.
pub open spec fn c_next(shape: Seq<usize>, a: int) -> int
    decreases shape.len() - a,
{
    if a >= shape.len() {
        1
    } else {
        sat_isize(c_next(shape, a + 1) * ((shape[a] as isize) as int))
    }
}

/// Row-major (C order) strides of `shape`, in elements.
pub open spec fn c_strides_spec(shape: Seq<usize>) -> Seq<isize> {
    Seq::new(shape.len(), |k: int| c_next(shape, k + 1) as isize)
}

pub proof fn lemma_c_next_range(shape: Seq<usize>, a: int)
    ensures
        isize::MIN <= c_next(shape, a) <= isize::MAX,
    decreases shape.len() - a,
{
    if a < shape.len() {
        lemma_c_next_range(shape, a + 1);
    }
}

/// Multiplication of two `isize` values that saturates at the type's bounds.
pub fn saturating_mul_isize(a: isize, b: isize) -> (r: isize)
    ensures
        r == sat_isize(a * b),
{
    match a.checked_mul(b) {
        Some(v) => v,
        None => {
            if (a < 0) == (b < 0) {
                assert(a * b > isize::MAX) by (nonlinear_arith)
                    requires
                        (a < 0) == (b < 0),
                        a * b > isize::MAX || a * b < isize::MIN,
                ;
                isize::MAX
            } else {
                assert(a * b < isize::MIN) by (nonlinear_arith)
                    requires
                        (a < 0) != (b < 0),
                        a * b > isize::MAX || a * b < isize::MIN,
                ;
                isize::MIN
            }
        },
    }
}

/// Row-major strides of `shape`: the last axis has stride 1 and each earlier
/// axis the product of the later dimensions, saturating at `isize::MAX`.
pub fn c_strides(shape: &[usize]) -> (r: Vec<isize>)
    ensures
        r@ == c_strides_spec(shape@),
{
    let n = shape.len();
    let mut strides: Vec<isize> = Vec::new();
    let mut k: usize = 0;
    while k < n
        invariant
            k <= n,
            n == shape.len(),
            strides@.len() == k,
        decreases n - k,
    {
        strides.push(0);
        k += 1;
    }
    let mut next: isize = 1;
    let mut axis: usize = n;
    while axis > 0
        invariant
            axis <= n,
            n == shape.len(),
            strides@.len() == n,
            next == c_next(shape@, axis as int),
            forall|j: int| axis <= j < n ==> strides@[j] == c_next(shape@, j + 1),
        decreases axis,
    {
        axis -= 1;
        strides.set(axis, next);
        next = saturating_mul_isize(next, shape[axis] as isize);
    }
    proof {
        assert forall|j: int| 0 <= j < n implies strides@[j] == c_strides_spec(shape@)[j] by {
            lemma_c_next_range(shape@, j + 1);
        }
    }
    assert(strides@ =~= c_strides_spec(shape@));
    strides
}

/// The dimension `i` places from the right, treating missing axes as length 1.
pub open spec fn dim_right(shape: Seq<usize>, i: int) -> usize {
    if 0 <= i < shape.len() {
        shape[shape.len() - 1 - i]
    } else {
        1
    }
}

/// Two dimensions broadcast when they are equal or one of them is 1.
pub open spec fn dims_broadcast(l: usize, r: usize) -> bool {
    l == r || l == 1 || r == 1
}

pub open spec fn broadcast_dim(l: usize, r: usize) -> usize {
    if l == r {
        l
    } else if l == 1 {
        r
    } else {
        l
    }
}

pub open spec fn max_len(a: int, b: int) -> int {
    if a >= b {
        a
    } else {
        b
    }
}

/// The shapes broadcast: aligned from the right, every pair of dimensions broadcasts.
pub open spec fn shapes_broadcast(left: Seq<usize>, right: Seq<usize>) -> bool {
    forall|i: int|
        0 <= i < max_len(left.len() as int, right.len() as int) ==> #[trigger] dims_broadcast(
            dim_right(left, i),
            dim_right(right, i),
        )
}

/// The NumPy broadcast of two shapes (meaningful when `shapes_broadcast` holds).
pub open spec fn broadcast_shape_spec(left: Seq<usize>, right: Seq<usize>) -> Seq<usize> {
    let n = max_len(left.len() as int, right.len() as int);
    Seq::new(
        n as nat,
        |k: int| broadcast_dim(dim_right(left, n - 1 - k), dim_right(right, n - 1 - k)),
    )
}

/// Broadcasting is symmetric: two shapes broadcast in either order, and to
/// the same shape.
pub proof fn lemma_broadcast_symmetric(left: Seq<usize>, right: Seq<usize>)
    ensures
        shapes_broadcast(left, right) == shapes_broadcast(right, left),
        shapes_broadcast(left, right) ==> broadcast_shape_spec(left, right) == broadcast_shape_spec(right, left),
{
    let n = max_len(left.len() as int, right.len() as int);
    assert(n == max_len(right.len() as int, left.len() as int));
    if shapes_broadcast(left, right) {
        assert forall|i: int| 0 <= i < n implies #[trigger] dims_broadcast(dim_right(right, i), dim_right(left, i)) by {
            assert(dims_broadcast(dim_right(left, i), dim_right(right, i)));
        }
    }
    if shapes_broadcast(right, left) {
        assert forall|i: int| 0 <= i < n implies #[trigger] dims_broadcast(dim_right(left, i), dim_right(right, i)) by {
            assert(dims_broadcast(dim_right(right, i), dim_right(left, i)));
        }
    }
    if shapes_broadcast(left, right) {
        assert(broadcast_shape_spec(left, right) =~= broadcast_shape_spec(right, left)) by {
            assert forall|k: int| 0 <= k < n implies broadcast_shape_spec(left, right)[k] == broadcast_shape_spec(
                right,
                left,
            )[k] by {
                assert(dims_broadcast(dim_right(left, n - 1 - k), dim_right(right, n - 1 - k)));
            }
        }
    }
}

/// A shape broadcasts with the shape of a scalar (no axes) to itself.
pub proof fn lemma_broadcast_scalar(shape: Seq<usize>)
    ensures
        shapes_broadcast(shape, Seq::empty()),
        broadcast_shape_spec(shape, Seq::empty()) == shape,
{
    let e = Seq::<usize>::empty();
    let n = shape.len() as int;
    assert(max_len(n, 0) == n);
    assert forall|i: int| 0 <= i < n implies #[trigger] dims_broadcast(dim_right(shape, i), dim_right(e, i)) by {}
    assert(broadcast_shape_spec(shape, e) =~= shape) by {
        assert forall|k: int| 0 <= k < n implies broadcast_shape_spec(shape, e)[k] == shape[k] by {
            assert(dim_right(shape, n - 1 - k) == shape[k]);
        }
    }
}

/// The dimension `index_from_right` places from the right, if the shape has that many axes.
pub fn dim_from_right(shape: &[usize], index_from_right: usize) -> (r: Option<usize>)
    ensures
        r == (if index_from_right < shape@.len() {
            Some(shape@[shape@.len() - 1 - index_from_right])
        } else {
            None::<usize>
        }),
{
    if index_from_right < shape.len() {
        Some(shape[shape.len() - 1 - index_from_right])
    } else {
        None
    }
}

/// NumPy broadcasting of two shapes: the result has the longer rank and, aligned
/// from the right, takes the non-1 dimension of each pair; any other pair of
/// unequal dimensions is a `BroadcastMismatch` naming both shapes.
pub fn broadcast_shape(left: &[usize], right: &[usize]) -> (r: Result<Vec<usize>, NumRsError>)
    ensures
        match r {
            Ok(out) => shapes_broadcast(left@, right@) && out@ == broadcast_shape_spec(left@, right@),
            Err(e) => !shapes_broadcast(left@, right@) && (e matches NumRsError::BroadcastMismatch {
                left: l,
                right: r,
            } && l@ == left@ && r@ == right@),
        },
{
    let ndim = if left.len() >= right.len() { left.len() } else { right.len() };
    let mut out: Vec<usize> = Vec::new();
    let mut k: usize = 0;
    while k < ndim
        invariant
            k <= ndim,
            out@.len() == k,
        decreases ndim - k,
    {
        out.push(1);
        k += 1;
    }
    let mut i: usize = 0;
    while i < ndim
        invariant
            i <= ndim,
            ndim == max_len(left@.len() as int, right@.len() as int),
            out@.len() == ndim,
            forall|j: int| 0 <= j < i ==> #[trigger] dims_broadcast(dim_right(left@, j), dim_right(right@, j)),
            forall|j: int|
                0 <= j < i ==> out@[ndim - 1 - j] == broadcast_dim(
                    dim_right(left@, j),
                    dim_right(right@, j),
                ),
        decreases ndim - i,
    {
        let l = match dim_from_right(left, i) {
            Some(d) => d,
            None => 1,
        };
        let r = match dim_from_right(right, i) {
            Some(d) => d,
            None => 1,
        };
        let d = if l == r {
            l
        } else if l == 1 {
            r
        } else if r == 1 {
            l
        } else {
            assert(!dims_broadcast(dim_right(left@, i as int), dim_right(right@, i as int)));
            return Err(NumRsError::BroadcastMismatch { left: vstd::slice::slice_to_vec(left), right: vstd::slice::slice_to_vec(right) });
        };
        out.set(ndim - 1 - i, d);
        i += 1;
    }
    assert(out@ =~= broadcast_shape_spec(left@, right@));
    Ok(out)
}


/// Product of the non-negative entries of a reshape specification.
pub open spec fn known_product(spec: Seq<isize>) -> int
    decreases spec.len(),
{
    if spec.len() == 0 {
        1
    } else if spec.last() >= 0 {
        known_product(spec.drop_last()) * spec.last()
    } else {
        known_product(spec.drop_last())
    }
}

/// Every running product of the non-negative entries fits in `usize`.
pub open spec fn known_fits(spec: Seq<isize>) -> bool
    decreases spec.len(),
{
    if spec.len() == 0 {
        true
    } else {
        known_fits(spec.drop_last()) && known_product(spec) <= usize::MAX
    }
}

/// Number of `-1` (inferred) entries.
pub open spec fn count_inferred(spec: Seq<isize>) -> int
    decreases spec.len(),
{
    if spec.len() == 0 {
        0
    } else {
        count_inferred(spec.drop_last()) + if spec.last() == -1 { 1int } else { 0int }
    }
}

/// The reshape specification `spec` can be resolved against `len` elements:
/// no entry below -1, at most one -1, the running product of the known
/// dimensions fits, a -1 entry divides `len` exactly by a non-zero known
/// product, and the resolved shape has exactly `len` elements.
pub open spec fn resolvable(spec: Seq<isize>, len: int) -> bool {
    &&& forall|k: int| 0 <= k < spec.len() ==> spec[k] >= -1
    &&& count_inferred(spec) <= 1
    &&& known_fits(spec)
    &&& count_inferred(spec) == 1 ==> known_product(spec) != 0 && len % known_product(spec) == 0
    &&& size_fits(resolved_shape(spec, len))
    &&& shape_size(resolved_shape(spec, len)) == len
}

/// The shape that `spec` resolves to for `len` elements.
pub open spec fn resolved_shape(spec: Seq<isize>, len: int) -> Seq<usize> {
    Seq::new(
        spec.len(),
        |k: int|
            if spec[k] == -1 {
                (len / known_product(spec)) as usize
            } else {
                spec[k] as usize
            },
    )
}

pub proof fn lemma_known_product_nonneg(spec: Seq<isize>)
    ensures
        known_product(spec) >= 0,
    decreases spec.len(),
{
    if spec.len() > 0 {
        lemma_known_product_nonneg(spec.drop_last());
        if spec.last() >= 0 {
            assert(known_product(spec.drop_last()) * spec.last() >= 0) by (nonlinear_arith)
                requires
                    known_product(spec.drop_last()) >= 0,
                    spec.last() >= 0,
            ;
        }
    }
}

proof fn lemma_known_fits_prefix(spec: Seq<isize>, k: int)
    requires
        known_fits(spec),
        0 <= k <= spec.len(),
    ensures
        known_fits(spec.take(k)),
    decreases spec.len(),
{
    if k == spec.len() {
        assert(spec.take(k) =~= spec);
    } else {
        assert(spec.drop_last().take(k) =~= spec.take(k));
        lemma_known_fits_prefix(spec.drop_last(), k);
    }
}

proof fn lemma_count_inferred_prefix(spec: Seq<isize>, k: int)
    requires
        0 <= k <= spec.len(),
    ensures
        count_inferred(spec.take(k)) <= count_inferred(spec),
        count_inferred(spec.take(k)) >= 0,
    decreases spec.len(),
{
    if k == spec.len() {
        assert(spec.take(k) =~= spec);
        lemma_count_inferred_nonneg(spec);
    } else {
        assert(spec.drop_last().take(k) =~= spec.take(k));
        lemma_count_inferred_prefix(spec.drop_last(), k);
    }
}

proof fn lemma_count_inferred_nonneg(spec: Seq<isize>)
    ensures
        count_inferred(spec) >= 0,
    decreases spec.len(),
{
    if spec.len() > 0 {
        lemma_count_inferred_nonneg(spec.drop_last());
    }
}


/// The entries of `spec` pass a left-to-right scan: none is below -1, at most
/// one is -1, and every running product of the known dimensions fits.
pub open spec fn scan_ok(spec: Seq<isize>) -> bool {
    &&& forall|k: int| 0 <= k < spec.len() ==> spec[k] >= -1
    &&& count_inferred(spec) <= 1
    &&& known_fits(spec)
}

/// The position of the first entry at which the scan fails, or -1 where it
/// passes.
pub open spec fn first_fault(spec: Seq<isize>) -> int
    decreases spec.len(),
{
    if spec.len() == 0 {
        -1
    } else if !scan_ok(spec.drop_last()) {
        first_fault(spec.drop_last())
    } else if scan_ok(spec) {
        -1
    } else {
        spec.len() - 1
    }
}

/// `e` is an `InvalidShape` error with the message `text`.
pub open spec fn invalid_shape_with(e: NumRsError, text: Seq<char>) -> bool {
    e matches NumRsError::InvalidShape(m) && m@ == text
}

/// The message of a dimension below -1.
pub open spec fn negative_dimension_text(dim: int, axis: nat) -> Seq<char> {
    "negative dimension "@ + signed_text(dim) + " at axis "@ + decimal_text(axis)
}

/// The message of a length that the known product does not divide.
pub open spec fn indivisible_text(len: nat, known: nat) -> Seq<char> {
    "cannot reshape "@ + decimal_text(len) + " elements with known product "@ + decimal_text(known)
}

/// The message of a resolved shape whose size is not the element count.
pub open spec fn size_mismatch_text(shape: Seq<usize>, size: nat, len: nat) -> Seq<char> {
    "shape "@ + list_text(usize_ints(shape)) + " has "@ + decimal_text(size) + " elements, expected "@
        + decimal_text(len)
}

/// The error that resolving `spec` against `len` elements reports: that of
/// the first entry at which the scan fails (a second -1, a dimension below -1,
/// or an overflowing known product); else a zero known product or one that
/// does not divide `len` beside a -1; else an overflowing or mismatched size.
pub open spec fn resolve_error(spec: Seq<isize>, len: int, e: NumRsError) -> bool {
    let k = first_fault(spec);
    let known = known_product(spec);
    let shape = resolved_shape(spec, len);
    if k >= 0 {
        if spec[k] == -1 {
            invalid_shape_with(e, "only one inferred dimension is allowed"@)
        } else if spec[k] < -1 {
            invalid_shape_with(e, negative_dimension_text(spec[k] as int, k as nat))
        } else {
            e == NumRsError::ShapeOverflow
        }
    } else if count_inferred(spec) == 1 && known == 0 {
        invalid_shape_with(e, "cannot infer dimension when known product is zero"@)
    } else if count_inferred(spec) == 1 && len % known != 0 {
        invalid_shape_with(e, indivisible_text(len as nat, known as nat))
    } else if !size_fits(shape) {
        e == NumRsError::ShapeOverflow
    } else {
        invalid_shape_with(e, size_mismatch_text(shape, shape_size(shape) as nat, len as nat))
    }
}

proof fn lemma_scan_ok_prefix(spec: Seq<isize>, j: int)
    requires
        scan_ok(spec),
        0 <= j <= spec.len(),
    ensures
        scan_ok(spec.take(j)),
{
    lemma_known_fits_prefix(spec, j);
    lemma_count_inferred_prefix(spec, j);
}

/// The scan passes the first `k` entries and fails at entry `k`.
proof fn lemma_first_fault_at(spec: Seq<isize>, k: int)
    requires
        0 <= k < spec.len(),
        scan_ok(spec.take(k)),
        !scan_ok(spec.take(k + 1)),
    ensures
        first_fault(spec) == k,
    decreases spec.len(),
{
    let d = spec.drop_last();
    if spec.len() == k + 1 {
        assert(spec.take(k + 1) =~= spec);
        assert(d =~= spec.take(k));
    } else {
        assert(d.take(k) =~= spec.take(k));
        assert(d.take(k + 1) =~= spec.take(k + 1));
        lemma_first_fault_at(d, k);
        if scan_ok(d) {
            lemma_scan_ok_prefix(d, k + 1);
        }
    }
}

proof fn lemma_no_fault(spec: Seq<isize>)
    requires
        scan_ok(spec),
    ensures
        first_fault(spec) == -1,
{
    if spec.len() > 0 {
        lemma_scan_ok_prefix(spec, spec.len() - 1);
        assert(spec.take(spec.len() - 1) =~= spec.drop_last());
    }
}

/// Resolve a NumPy reshape specification (`-1` marks the one inferred
/// dimension) against `len` elements.
pub fn resolve_shape(spec: &[isize], len: usize) -> (r: Result<Vec<usize>, NumRsError>)
    ensures
        match r {
            Ok(out) => resolvable(spec@, len as int) && out@ == resolved_shape(spec@, len as int),
            Err(e) => !resolvable(spec@, len as int) && resolve_error(spec@, len as int, e),
        },
{
    let mut inferred_axis: Option<usize> = None;
    let mut known: usize = 1;
    let mut out: Vec<usize> = Vec::new();
    let mut axis: usize = 0;
    while axis < spec.len()
        invariant
            axis <= spec.len(),
            out@.len() == axis,
            forall|k: int| 0 <= k < axis ==> spec@[k] >= -1,
            known == known_product(spec@.take(axis as int)),
            known_fits(spec@.take(axis as int)),
            count_inferred(spec@.take(axis as int)) <= 1,
            match inferred_axis {
                Some(a) => count_inferred(spec@.take(axis as int)) == 1 && a < axis && spec@[a as int] == -1,
                None => count_inferred(spec@.take(axis as int)) == 0,
            },
            forall|k: int| 0 <= k < axis && spec@[k] != -1 ==> out@[k] == spec@[k] as usize,
        decreases spec.len() - axis,
    {
        let dim = spec[axis];
        let ghost pre = spec@.take(axis as int);
        let ghost nxt = spec@.take(axis as int + 1);
        assert(nxt.drop_last() =~= pre);
        assert(nxt.last() == dim);
        if dim == -1 {
            if inferred_axis.is_some() {
                proof {
                    lemma_count_inferred_prefix(spec@, axis + 1);
                    assert(count_inferred(nxt) == 2);
                    lemma_first_fault_at(spec@, axis as int);
                }
                return Err(NumRsError::InvalidShape("only one inferred dimension is allowed".to_string()));
            }
            inferred_axis = Some(axis);
            out.push(usize::MAX);
        } else if dim < 0 {
            proof {
                assert(nxt[axis as int] == dim);
                lemma_first_fault_at(spec@, axis as int);
            }
            return Err(negative_dimension_error(dim, axis));
        } else {
            let d = dim as usize;
            match known.checked_mul(d) {
                Some(v) => {
                    known = v;
                },
                None => {
                    proof {
                        if known_fits(spec@) {
                            lemma_known_fits_prefix(spec@, axis + 1);
                        }
                        assert(!known_fits(nxt));
                        lemma_first_fault_at(spec@, axis as int);
                    }
                    return Err(NumRsError::ShapeOverflow);
                },
            }
            out.push(d);
        }
        axis += 1;
    }
    assert(spec@.take(spec.len() as int) =~= spec@);
    proof {
        lemma_no_fault(spec@);
    }
    if let Some(a) = inferred_axis {
        if known == 0 {
            return Err(NumRsError::InvalidShape("cannot infer dimension when known product is zero".to_string()));
        }
        if len % known != 0 {
            return Err(indivisible_error(len, known));
        }
        out.set(a, len / known);
    }
    assert(out@ =~= resolved_shape(spec@, len as int)) by {
        assert forall|k: int| 0 <= k < spec.len() implies out@[k] == resolved_shape(spec@, len as int)[k] by {
            if spec@[k] == -1 {
                match inferred_axis {
                    Some(a) => {
                        if k != a {
                            lemma_two_inferred(spec@, k, a as int);
                        }
                    },
                    None => {
                        lemma_inferred_counted(spec@, k);
                    },
                }
            }
        }
    }
    let resolved_len = match size_of_shape(&out) {
        Ok(n) => n,
        Err(e) => {
            return Err(e);
        },
    };
    if resolved_len != len {
        return Err(size_mismatch_error(&out, resolved_len, len));
    }
    Ok(out)
}

proof fn lemma_inferred_counted(spec: Seq<isize>, k: int)
    requires
        0 <= k < spec.len(),
        spec[k] == -1,
    ensures
        count_inferred(spec) >= 1,
    decreases spec.len(),
{
    lemma_count_inferred_nonneg(spec.drop_last());
    if k < spec.len() - 1 {
        lemma_inferred_counted(spec.drop_last(), k);
    }
}

proof fn lemma_two_inferred(spec: Seq<isize>, k: int, a: int)
    requires
        0 <= k < spec.len(),
        0 <= a < spec.len(),
        k != a,
        spec[k] == -1,
        spec[a] == -1,
    ensures
        count_inferred(spec) >= 2,
    decreases spec.len(),
{
    let n = spec.len() - 1;
    lemma_count_inferred_nonneg(spec.drop_last());
    if k == n {
        lemma_inferred_counted(spec.drop_last(), a);
    } else if a == n {
        lemma_inferred_counted(spec.drop_last(), k);
    } else {
        lemma_two_inferred(spec.drop_last(), k, a);
    }
}

/// The error for a dimension below -1.
fn negative_dimension_error(dim: isize, axis: usize) -> (e: NumRsError)
    ensures
        invalid_shape_with(e, negative_dimension_text(dim as int, axis as nat)),
{
    let mut out: Vec<char> = Vec::new();
    push_str(&mut out, "negative dimension ");
    push_signed(&mut out, dim as i128);
    push_str(&mut out, " at axis ");
    push_decimal(&mut out, axis as u128);
    NumRsError::InvalidShape(string_from_chars(&out))
}

/// The error for a length that the known product does not divide.
fn indivisible_error(len: usize, known: usize) -> (e: NumRsError)
    ensures
        invalid_shape_with(e, indivisible_text(len as nat, known as nat)),
{
    let mut out: Vec<char> = Vec::new();
    push_str(&mut out, "cannot reshape ");
    push_decimal(&mut out, len as u128);
    push_str(&mut out, " elements with known product ");
    push_decimal(&mut out, known as u128);
    NumRsError::InvalidShape(string_from_chars(&out))
}

/// The error for a resolved shape whose size is not the element count.
pub(crate) fn size_mismatch_error(shape: &[usize], size: usize, len: usize) -> (e: NumRsError)
    ensures
        invalid_shape_with(e, size_mismatch_text(shape@, size as nat, len as nat)),
{
    let mut out: Vec<char> = Vec::new();
    push_str(&mut out, "shape ");
    push_usize_list(&mut out, shape);
    push_str(&mut out, " has ");
    push_decimal(&mut out, size as u128);
    push_str(&mut out, " elements, expected ");
    push_decimal(&mut out, len as u128);
    NumRsError::InvalidShape(string_from_chars(&out))
}

/// Resolve a possibly negative axis against `ndim` axes.
pub fn normalize_axis(axis: isize, ndim: usize) -> (r: Result<usize, NumRsError>)
    requires
        ndim <= isize::MAX,
    ensures
        match r {
            Ok(a) => a == (if axis < 0 { ndim + axis } else { axis as int }) && a < ndim,
            Err(e) => {
                let n = if axis < 0 { ndim + axis } else { axis as int };
                !(0 <= n < ndim) && e == (NumRsError::AxisOutOfBounds { axis, ndim })
            },
        },
{
    let normalized = if axis < 0 { ndim as isize + axis } else { axis };
    if normalized < 0 || normalized >= ndim as isize {
        return Err(NumRsError::AxisOutOfBounds { axis, ndim });
    }
    Ok(normalized as usize)
}

/// Resolve a possibly negative insertion position against `ndim` axes
/// (positions `0..=ndim` are valid).
pub fn normalize_insert_axis(axis: isize, ndim: usize) -> (r: Result<usize, NumRsError>)
    requires
        ndim < isize::MAX,
    ensures
        match r {
            Ok(a) => a == (if axis < 0 { ndim + 1 + axis } else { axis as int }) && a <= ndim,
            Err(e) => {
                let n = if axis < 0 { ndim + 1 + axis } else { axis as int };
                !(0 <= n <= ndim) && e == (NumRsError::AxisOutOfBounds { axis, ndim: (ndim + 1) as usize })
            },
        },
{
    let upper = ndim + 1;
    let normalized = if axis < 0 { upper as isize + axis } else { axis };
    if normalized < 0 || normalized > ndim as isize {
        return Err(NumRsError::AxisOutOfBounds { axis, ndim: upper });
    }
    Ok(normalized as usize)
}


/// A resolvable specification with an inferred entry has a positive known product.
pub proof fn lemma_resolvable_inferred(spec: Seq<isize>, len: int, k: int)
    requires
        resolvable(spec, len),
        0 <= k < spec.len(),
        spec[k] == -1,
    ensures
        known_product(spec) >= 1,
        count_inferred(spec) == 1,
{
    lemma_inferred_counted(spec, k);
    lemma_known_product_nonneg(spec);
}

} // verus!
