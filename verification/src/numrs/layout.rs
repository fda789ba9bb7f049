use vstd::prelude::*;
use vstd::arithmetic::div_mod::{lemma_breakdown, lemma_div_denominator};
use crate::numrs::error::NumRsError;
use crate::numrs::shape::{
    broadcast_dim, broadcast_shape, broadcast_shape_spec, c_next, sat_isize, c_strides, c_strides_spec, dim_right, dims_broadcast,
    lemma_c_next_range, lemma_shape_size_zero, max_len, shape_size, shapes_broadcast, size_fits,
    fits_or_empty,
};

verus! {

/// Sum over the first `n` axes of index times stride.
pub open spec fn dot_upto(idx: Seq<int>, strides: Seq<isize>, n: int) -> int
    decreases n,
{
    if n <= 0 {
        0
    } else {
        dot_upto(idx, strides, n - 1) + idx[n - 1] * strides[n - 1]
    }
}

/// Offset, relative to the base offset, of the element at multi-index `idx`.
pub open spec fn dot(idx: Seq<int>, strides: Seq<isize>) -> int {
    dot_upto(idx, strides, idx.len() as int)
}

/// `idx` addresses an element of an array of the given shape.
pub open spec fn in_bounds(idx: Seq<int>, shape: Seq<usize>) -> bool {
    &&& idx.len() == shape.len()
    &&& forall|k: int| 0 <= k < idx.len() ==> 0 <= #[trigger] idx[k] < shape[k]
}

/// Every element of the layout lives at an offset in `[0, len)`.
pub open spec fn offsets_within(shape: Seq<usize>, strides: Seq<isize>, offset: int, len: int) -> bool {
    forall|idx: Seq<int>| #[trigger] in_bounds(idx, shape) ==> 0 <= offset + dot(idx, strides) < len
}

/// A layout (shape, strides, base offset) that addresses a buffer of `len` elements.
pub open spec fn layout_ok(shape: Seq<usize>, strides: Seq<isize>, offset: int, len: int) -> bool {
    &&& shape.len() == strides.len()
    &&& shape.len() < isize::MAX
    &&& fits_or_empty(shape)
    &&& forall|k: int| 0 <= k < shape.len() ==> #[trigger] shape[k] <= isize::MAX
    &&& 0 <= len <= isize::MAX
    &&& offsets_within(shape, strides, offset, len)
}

/// What is left of a row-major linear index once the axes `a..` are peeled off.
pub open spec fn rem_from(shape: Seq<usize>, linear: int, a: int) -> int
    decreases shape.len() - a,
{
    if a >= shape.len() {
        linear
    } else if shape[a] == 0 {
        0
    } else {
        rem_from(shape, linear, a + 1) / (shape[a] as int)
    }
}

/// The coordinate along axis `k` of the row-major linear index `linear`.
pub open spec fn digit(shape: Seq<usize>, linear: int, k: int) -> int {
    if shape[k] == 0 {
        0
    } else {
        rem_from(shape, linear, k + 1) % (shape[k] as int)
    }
}

/// The multi-index of the row-major linear index `linear`.
pub open spec fn unravel(shape: Seq<usize>, linear: int) -> Seq<int> {
    Seq::new(shape.len(), |k: int| digit(shape, linear, k))
}

/// The elements a layout addresses in `data`, in row-major order.
pub open spec fn view_elems<T>(data: Seq<T>, shape: Seq<usize>, strides: Seq<isize>, offset: int) -> Seq<T> {
    Seq::new(shape_size(shape) as nat, |i: int| data[offset + dot(unravel(shape, i), strides)])
}

pub open spec fn to_ints(s: Seq<usize>) -> Seq<int> {
    Seq::new(s.len(), |k: int| s[k] as int)
}

pub open spec fn zero_prefix(idx: Seq<int>, a: int) -> Seq<int> {
    Seq::new(idx.len(), |k: int| if k < a { 0 } else { idx[k] })
}

pub proof fn lemma_rem_from_nonneg(shape: Seq<usize>, linear: int, a: int)
    requires
        linear >= 0,
    ensures
        rem_from(shape, linear, a) >= 0,
    decreases shape.len() - a,
{
    if a < shape.len() && shape[a] != 0 {
        lemma_rem_from_nonneg(shape, linear, a + 1);
    }
}

/// Every non-negative linear index unravels to an in-bounds multi-index when no dimension is zero.
pub proof fn lemma_unravel_in_bounds(shape: Seq<usize>, linear: int)
    requires
        linear >= 0,
        forall|k: int| 0 <= k < shape.len() ==> shape[k] > 0,
    ensures
        in_bounds(unravel(shape, linear), shape),
{
    assert forall|k: int| 0 <= k < shape.len() implies 0 <= #[trigger] unravel(shape, linear)[k] < shape[k] by {
        lemma_rem_from_nonneg(shape, linear, k + 1);
    }
}

/// A positive size means no dimension is zero.
pub proof fn lemma_positive_size_dims(shape: Seq<usize>)
    requires
        shape_size(shape) > 0,
    ensures
        forall|k: int| 0 <= k < shape.len() ==> shape[k] > 0,
{
    lemma_shape_size_zero(shape);
}

/// An in-bounds multi-index means no dimension is zero.
pub proof fn lemma_in_bounds_dims(idx: Seq<int>, shape: Seq<usize>)
    requires
        in_bounds(idx, shape),
    ensures
        forall|k: int| 0 <= k < shape.len() ==> shape[k] > 0,
{
    assert forall|k: int| 0 <= k < shape.len() implies shape[k] > 0 by {
        assert(0 <= idx[k] < shape[k]);
    }
}

pub proof fn lemma_dot_zero_prefix(idx: Seq<int>, strides: Seq<isize>, a: int, n: int)
    requires
        0 <= a <= n <= idx.len(),
    ensures
        dot_upto(zero_prefix(idx, a), strides, n) == dot_upto(idx, strides, n) - dot_upto(idx, strides, a),
    decreases n,
{
    if n > a {
        lemma_dot_zero_prefix(idx, strides, a, n - 1);
    } else {
        lemma_dot_zero_prefix_low(idx, strides, a, n);
    }
}

proof fn lemma_dot_zero_prefix_low(idx: Seq<int>, strides: Seq<isize>, a: int, n: int)
    requires
        0 <= n <= a,
        n <= idx.len(),
    ensures
        dot_upto(zero_prefix(idx, a), strides, n) == 0,
    decreases n,
{
    if n > 0 {
        lemma_dot_zero_prefix_low(idx, strides, a, n - 1);
    }
}

pub proof fn lemma_zero_prefix_in_bounds(idx: Seq<int>, shape: Seq<usize>, a: int)
    requires
        in_bounds(idx, shape),
    ensures
        in_bounds(zero_prefix(idx, a), shape),
{
    assert forall|k: int| 0 <= k < idx.len() implies 0 <= #[trigger] zero_prefix(idx, a)[k] < shape[k] by {
        assert(0 <= idx[k] < shape[k]);
    }
}

/// Offset of the element with row-major linear index `linear`.
pub fn linear_offset(shape: &[usize], strides: &[isize], base: isize, linear: usize) -> (r: usize)
    requires
        shape@.len() == strides@.len(),
        forall|k: int| 0 <= k < shape@.len() ==> 0 < #[trigger] shape@[k] <= isize::MAX,
        offsets_within(shape@, strides@, base as int, isize::MAX + 1),
    ensures
        r == base + dot(unravel(shape@, linear as int), strides@),
{
    let ghost idx = unravel(shape@, linear as int);
    proof {
        lemma_unravel_in_bounds(shape@, linear as int);
    }
    let n = shape.len();
    let mut remainder = linear;
    let mut offset = base;
    let mut axis = n;
    proof {
        lemma_dot_zero_prefix(idx, strides@, n as int, n as int);
        lemma_zero_prefix_in_bounds(idx, shape@, n as int);
    }
    while axis > 0
        invariant
            axis <= n,
            n == shape@.len(),
            n == strides@.len(),
            idx == unravel(shape@, linear as int),
            in_bounds(idx, shape@),
            forall|k: int| 0 <= k < shape@.len() ==> 0 < #[trigger] shape@[k] <= isize::MAX,
            offsets_within(shape@, strides@, base as int, isize::MAX + 1),
            remainder == rem_from(shape@, linear as int, axis as int),
            offset == base + dot(idx, strides@) - dot_upto(idx, strides@, axis as int),
        decreases axis,
    {
        axis -= 1;
        let dim = shape[axis];
        let coord = remainder % dim;
        remainder = remainder / dim;
        proof {
            lemma_dot_zero_prefix(idx, strides@, axis as int, n as int);
            lemma_zero_prefix_in_bounds(idx, shape@, axis as int);
            lemma_dot_zero_prefix(idx, strides@, axis as int + 1, n as int);
            lemma_zero_prefix_in_bounds(idx, shape@, axis as int + 1);
            assert(idx[axis as int] == coord);
            assert(0 <= coord < dim);
            let z0 = zero_prefix(idx, axis as int);
            let z1 = zero_prefix(idx, axis as int + 1);
            assert(z0.len() == n && z1.len() == n);
            assert(0 <= base + dot(z0, strides@) <= isize::MAX);
            assert(0 <= base + dot(z1, strides@) <= isize::MAX);
            assert(dot_upto(idx, strides@, axis as int + 1) == dot_upto(idx, strides@, axis as int) + coord * strides@[axis as int]);
        }
        offset = offset + (coord as isize) * strides[axis];
    }
    offset as usize
}


/// Offset of the element at an in-bounds multi-index.
fn index_offset(shape: &[usize], strides: &[isize], base: isize, index: &[usize]) -> (r: usize)
    requires
        shape@.len() == strides@.len(),
        in_bounds(to_ints(index@), shape@),
        forall|k: int| 0 <= k < shape@.len() ==> #[trigger] shape@[k] <= isize::MAX,
        offsets_within(shape@, strides@, base as int, isize::MAX + 1),
    ensures
        r == base + dot(to_ints(index@), strides@),
{
    let ghost idx = to_ints(index@);
    let n = index.len();
    let mut offset = base;
    let mut axis = n;
    proof {
        lemma_dot_zero_prefix(idx, strides@, n as int, n as int);
    }
    while axis > 0
        invariant
            axis <= n,
            n == shape@.len(),
            n == strides@.len(),
            n == index@.len(),
            idx == to_ints(index@),
            in_bounds(idx, shape@),
            forall|k: int| 0 <= k < shape@.len() ==> #[trigger] shape@[k] <= isize::MAX,
            offsets_within(shape@, strides@, base as int, isize::MAX + 1),
            offset == base + dot(idx, strides@) - dot_upto(idx, strides@, axis as int),
        decreases axis,
    {
        axis -= 1;
        let coord = index[axis];
        proof {
            lemma_dot_zero_prefix(idx, strides@, axis as int, n as int);
            lemma_zero_prefix_in_bounds(idx, shape@, axis as int);
            lemma_dot_zero_prefix(idx, strides@, axis as int + 1, n as int);
            lemma_zero_prefix_in_bounds(idx, shape@, axis as int + 1);
            assert(idx[axis as int] == coord);
            assert(0 <= coord < shape@[axis as int]);
            let z0 = zero_prefix(idx, axis as int);
            let z1 = zero_prefix(idx, axis as int + 1);
            assert(z0.len() == n && z1.len() == n);
            assert(0 <= base + dot(z0, strides@) <= isize::MAX);
            assert(0 <= base + dot(z1, strides@) <= isize::MAX);
            assert(dot_upto(idx, strides@, axis as int + 1) == dot_upto(idx, strides@, axis as int) + coord
                * strides@[axis as int]);
        }
        offset = offset + (coord as isize) * strides[axis];
    }
    offset as usize
}

/// The first axis (in order) at which `index` is out of bounds, if any.
pub open spec fn first_bad_axis(index: Seq<usize>, shape: Seq<usize>, axis: int) -> bool {
    &&& 0 <= axis < shape.len()
    &&& index[axis] >= shape[axis]
    &&& forall|k: int| 0 <= k < axis ==> index[k] < shape[k]
}

/// Offset of the element at `index`: the rank must match (`IndexRankMismatch`)
/// and each coordinate must lie inside its axis (`IndexOutOfBounds` for the first
/// axis, in order, where it does not).
pub fn offset_for_index(shape: &[usize], strides: &[isize], base_offset: isize, index: &[usize]) -> (r: Result<
    usize,
    NumRsError,
>)
    requires
        shape@.len() == strides@.len(),
        forall|k: int| 0 <= k < shape@.len() ==> #[trigger] shape@[k] <= isize::MAX,
        offsets_within(shape@, strides@, base_offset as int, isize::MAX + 1),
    ensures
        match r {
            Ok(o) => in_bounds(to_ints(index@), shape@) && o == base_offset + dot(to_ints(index@), strides@),
            Err(e) => !in_bounds(to_ints(index@), shape@) && if index@.len() != shape@.len() {
                e == (NumRsError::IndexRankMismatch { expected: shape@.len() as usize, actual: index@.len() as usize })
            } else {
                exists|axis: int| #[trigger]
                    first_bad_axis(index@, shape@, axis) && e == (NumRsError::IndexOutOfBounds {
                        axis: axis as usize,
                        index: #[verifier::truncate] (index@[axis] as isize),
                        len: shape@[axis],
                    })
            },
        },
{
    if index.len() != shape.len() {
        return Err(NumRsError::IndexRankMismatch { expected: shape.len(), actual: index.len() });
    }
    let mut axis: usize = 0;
    while axis < index.len()
        invariant
            axis <= index@.len(),
            index@.len() == shape@.len(),
            forall|k: int| 0 <= k < axis ==> index@[k] < shape@[k],
        decreases index@.len() - axis,
    {
        if index[axis] >= shape[axis] {
            assert(first_bad_axis(index@, shape@, axis as int));
            assert(to_ints(index@)[axis as int] >= shape@[axis as int]);
            return Err(NumRsError::IndexOutOfBounds { axis, index: #[verifier::truncate] (index[axis] as isize), len: shape[axis] });
        }
        axis += 1;
    }
    assert(in_bounds(to_ints(index@), shape@));
    Ok(index_offset(shape, strides, base_offset, index))
}

/// Row-major contiguity: an empty layout, or strides equal to the C strides of the shape.
pub open spec fn c_contiguous_spec(shape: Seq<usize>, strides: Seq<isize>) -> bool {
    (exists|k: int| 0 <= k < shape.len() && shape[k] == 0) || strides == c_strides_spec(shape)
}

fn contains_zero(shape: &[usize]) -> (r: bool)
    ensures
        r == exists|k: int| 0 <= k < shape@.len() && shape@[k] == 0,
{
    let mut i: usize = 0;
    while i < shape.len()
        invariant
            i <= shape@.len(),
            forall|k: int| 0 <= k < i ==> shape@[k] != 0,
        decreases shape@.len() - i,
    {
        if shape[i] == 0 {
            return true;
        }
        i += 1;
    }
    false
}

fn isize_slices_equal(a: &[isize], b: &[isize]) -> (r: bool)
    ensures
        r == (a@ == b@),
{
    if a.len() != b.len() {
        return false;
    }
    let mut i: usize = 0;
    while i < a.len()
        invariant
            i <= a@.len(),
            a@.len() == b@.len(),
            forall|k: int| 0 <= k < i ==> a@[k] == b@[k],
        decreases a@.len() - i,
    {
        if a[i] != b[i] {
            return false;
        }
        i += 1;
    }
    assert(a@ =~= b@);
    true
}

/// Whether the layout is row-major contiguous.
pub fn is_c_contiguous(shape: &[usize], strides: &[isize]) -> (r: bool)
    ensures
        r == c_contiguous_spec(shape@, strides@),
{
    if contains_zero(shape) {
        return true;
    }
    let c = c_strides(shape);
    isize_slices_equal(strides, c.as_slice())
}


/// `source` broadcasts to exactly `target`.
pub open spec fn broadcasts_to(source: Seq<usize>, target: Seq<usize>) -> bool {
    shapes_broadcast(source, target) && broadcast_shape_spec(source, target) == target
}

/// Strides that read `source` as if it had shape `target`: new leading axes and
/// stretched length-1 axes get stride 0.
pub open spec fn broadcast_strides_spec(source: Seq<usize>, strides: Seq<isize>, target: Seq<usize>) -> Seq<isize> {
    let lead = target.len() - source.len();
    Seq::new(
        target.len(),
        |t: int|
            if t < lead {
                0isize
            } else if source[t - lead] == target[t] {
                strides[t - lead]
            } else {
                0isize
            },
    )
}

/// The source multi-index read by target multi-index `idx` under broadcasting.
pub open spec fn broadcast_source_index(source: Seq<usize>, target: Seq<usize>, idx: Seq<int>) -> Seq<int> {
    let lead = target.len() - source.len();
    Seq::new(source.len(), |j: int| if source[j] == target[j + lead] { idx[j + lead] } else { 0 })
}

pub proof fn lemma_broadcasts_to_facts(source: Seq<usize>, target: Seq<usize>)
    requires
        broadcasts_to(source, target),
    ensures
        source.len() <= target.len(),
        forall|j: int|
            0 <= j < source.len() ==> #[trigger] source[j] == target[j + target.len() - source.len()] || source[j]
                == 1,
{
    let n = max_len(source.len() as int, target.len() as int);
    assert(broadcast_shape_spec(source, target).len() == n);
    assert forall|j: int| 0 <= j < source.len() implies #[trigger] source[j] == target[j + target.len()
        - source.len()] || source[j] == 1 by {
        let i = source.len() - 1 - j;
        assert(dims_broadcast(dim_right(source, i), dim_right(target, i)));
        assert(broadcast_shape_spec(source, target)[n - 1 - i] == target[n - 1 - i]);
    }
}

proof fn lemma_dot_zero_strides(idx: Seq<int>, strides: Seq<isize>, n: int)
    requires
        0 <= n <= strides.len(),
        forall|t: int| 0 <= t < n ==> strides[t] == 0,
    ensures
        dot_upto(idx, strides, n) == 0,
    decreases n,
{
    if n > 0 {
        lemma_dot_zero_strides(idx, strides, n - 1);
    }
}

proof fn lemma_broadcast_dot_upto(
    source: Seq<usize>,
    strides: Seq<isize>,
    target: Seq<usize>,
    idx: Seq<int>,
    m: int,
)
    requires
        source.len() == strides.len(),
        source.len() <= target.len(),
        idx.len() == target.len(),
        0 <= m <= source.len(),
    ensures
        dot_upto(idx, broadcast_strides_spec(source, strides, target), target.len() - source.len() + m)
            == dot_upto(broadcast_source_index(source, target, idx), strides, m),
    decreases m,
{
    let lead = target.len() - source.len();
    if m == 0 {
        lemma_dot_zero_strides(idx, broadcast_strides_spec(source, strides, target), lead);
    } else {
        lemma_broadcast_dot_upto(source, strides, target, idx, m - 1);
    }
}

/// Reading a broadcast layout at `idx` reads the source layout at its source index.
pub proof fn lemma_broadcast_dot(source: Seq<usize>, strides: Seq<isize>, target: Seq<usize>, idx: Seq<int>)
    requires
        source.len() == strides.len(),
        broadcasts_to(source, target),
        in_bounds(idx, target),
    ensures
        in_bounds(broadcast_source_index(source, target, idx), source),
        dot(idx, broadcast_strides_spec(source, strides, target)) == dot(
            broadcast_source_index(source, target, idx),
            strides,
        ),
{
    lemma_broadcasts_to_facts(source, target);
    lemma_broadcast_dot_upto(source, strides, target, idx, source.len() as int);
    let src = broadcast_source_index(source, target, idx);
    assert forall|j: int| 0 <= j < src.len() implies 0 <= #[trigger] src[j] < source[j] by {
        let lead = target.len() - source.len();
        assert(source[j] == target[j + lead] || source[j] == 1);
        assert(0 <= idx[j + lead] < target[j + lead]);
    }
}

/// A broadcast of a well-formed layout stays inside the same buffer.
pub proof fn lemma_broadcast_offsets_within(
    source: Seq<usize>,
    strides: Seq<isize>,
    target: Seq<usize>,
    offset: int,
    len: int,
)
    requires
        source.len() == strides.len(),
        broadcasts_to(source, target),
        offsets_within(source, strides, offset, len),
    ensures
        offsets_within(target, broadcast_strides_spec(source, strides, target), offset, len),
{
    assert forall|idx: Seq<int>| #[trigger] in_bounds(idx, target) implies 0 <= offset + dot(
        idx,
        broadcast_strides_spec(source, strides, target),
    ) < len by {
        lemma_broadcast_dot(source, strides, target, idx);
    }
}

/// Strides that view a layout of shape `source_shape` as `target_shape`
/// without copying; `BroadcastMismatch` when the shapes do not broadcast to
/// exactly the target.
pub fn broadcast_strides(source_shape: &[usize], source_strides: &[isize], target_shape: &[usize]) -> (r:
    Result<Vec<isize>, NumRsError>)
    requires
        source_shape@.len() == source_strides@.len(),
    ensures
        match r {
            Ok(st) => broadcasts_to(source_shape@, target_shape@) && st@ == broadcast_strides_spec(
                source_shape@,
                source_strides@,
                target_shape@,
            ),
            Err(e) => !broadcasts_to(source_shape@, target_shape@) && (e matches NumRsError::BroadcastMismatch {
                left: l,
                right: rr,
            } && l@ == source_shape@ && rr@ == target_shape@),
        },
{
    let checked = match broadcast_shape(source_shape, target_shape) {
        Ok(c) => c,
        Err(e) => {
            return Err(e);
        },
    };
    if !usize_slices_equal(checked.as_slice(), target_shape) {
        return Err(
            NumRsError::BroadcastMismatch {
                left: vstd::slice::slice_to_vec(source_shape),
                right: vstd::slice::slice_to_vec(target_shape),
            },
        );
    }
    proof {
        lemma_broadcasts_to_facts(source_shape@, target_shape@);
    }
    let target_ndim = target_shape.len();
    let source_ndim = source_shape.len();
    let lead = target_ndim - source_ndim;
    let mut out: Vec<isize> = Vec::new();
    let mut t: usize = 0;
    while t < target_ndim
        invariant
            t <= target_ndim,
            target_ndim == target_shape@.len(),
            source_ndim == source_shape@.len(),
            source_ndim == source_strides@.len(),
            lead == target_ndim - source_ndim,
            broadcasts_to(source_shape@, target_shape@),
            forall|j: int|
                0 <= j < source_shape@.len() ==> #[trigger] source_shape@[j] == target_shape@[j + lead]
                    || source_shape@[j] == 1,
            out@.len() == t,
            forall|k: int|
                0 <= k < t ==> out@[k] == broadcast_strides_spec(source_shape@, source_strides@, target_shape@)[k],
        decreases target_ndim - t,
    {
        if t < lead {
            out.push(0);
        } else {
            let source_axis = t - lead;
            let source_dim = source_shape[source_axis];
            let target_dim = target_shape[t];
            if source_dim == target_dim {
                out.push(source_strides[source_axis]);
            } else {
                out.push(0);
            }
        }
        t += 1;
    }
    assert(out@ =~= broadcast_strides_spec(source_shape@, source_strides@, target_shape@));
    Ok(out)
}

fn usize_slices_equal(a: &[usize], b: &[usize]) -> (r: bool)
    ensures
        r == (a@ == b@),
{
    if a.len() != b.len() {
        return false;
    }
    let mut i: usize = 0;
    while i < a.len()
        invariant
            i <= a@.len(),
            a@.len() == b@.len(),
            forall|k: int| 0 <= k < i ==> a@[k] == b@[k],
        decreases a@.len() - i,
    {
        if a[i] != b[i] {
            return false;
        }
        i += 1;
    }
    assert(a@ =~= b@);
    true
}


/// `axes` lists every axis `0..n` exactly once.
pub open spec fn is_axis_permutation(axes: Seq<usize>, n: int) -> bool {
    &&& axes.len() == n
    &&& forall|k: int| 0 <= k < axes.len() ==> #[trigger] axes[k] < n
    &&& forall|i: int, j: int| 0 <= i < axes.len() && 0 <= j < axes.len() && i != j ==> axes[i] != axes[j]
}

/// `s` reordered by `axes`: entry `k` of the result is entry `axes[k]` of `s`.
pub open spec fn permute_seq<A>(s: Seq<A>, axes: Seq<usize>) -> Seq<A> {
    Seq::new(axes.len(), |k: int| s[axes[k] as int])
}

pub open spec fn seq_sum(t: Seq<int>) -> int
    decreases t.len(),
{
    if t.len() == 0 {
        0
    } else {
        seq_sum(t.drop_last()) + t.last()
    }
}

pub open spec fn dot_terms(idx: Seq<int>, strides: Seq<isize>) -> Seq<int> {
    Seq::new(idx.len(), |k: int| idx[k] * strides[k])
}

proof fn lemma_dot_is_sum(idx: Seq<int>, strides: Seq<isize>, n: int)
    requires
        0 <= n <= idx.len(),
    ensures
        dot_upto(idx, strides, n) == seq_sum(dot_terms(idx, strides).take(n)),
    decreases n,
{
    if n > 0 {
        lemma_dot_is_sum(idx, strides, n - 1);
        assert(dot_terms(idx, strides).take(n).drop_last() =~= dot_terms(idx, strides).take(n - 1));
    }
}

proof fn lemma_sum_remove(t: Seq<int>, m: int)
    requires
        0 <= m < t.len(),
    ensures
        seq_sum(t) == seq_sum(t.remove(m)) + t[m],
    decreases t.len(),
{
    if m < t.len() - 1 {
        lemma_sum_remove(t.drop_last(), m);
        assert(t.remove(m).drop_last() =~= t.drop_last().remove(m));
    } else {
        assert(t.remove(m) =~= t.drop_last());
    }
}

/// Every axis occurs in a permutation of the axes.
pub proof fn lemma_permutation_onto(axes: Seq<usize>, n: int, j: int)
    requires
        is_axis_permutation(axes, n),
        0 <= j < n,
    ensures
        exists|k: int| 0 <= k < n && axes[k] == j,
{
    let ints = to_ints(axes);
    if !(exists|k: int| 0 <= k < n && axes[k] == j) {
        assert(ints.no_duplicates()) by {
            assert forall|a: int, b: int| 0 <= a < ints.len() && 0 <= b < ints.len() && a != b implies ints[a]
                != ints[b] by {
                assert(axes[a] != axes[b]);
            }
        }
        ints.unique_seq_to_set();
        vstd::set_lib::lemma_int_range(0, n);
        let range = vstd::set_lib::set_int_range(0, n).remove(j);
        assert(ints.to_set().subset_of(range)) by {
            assert forall|x: int| ints.to_set().contains(x) implies range.contains(x) by {
                let k = choose|k: int| 0 <= k < ints.len() && ints[k] == x;
                assert(axes[k] < n);
                assert(axes[k] != j);
            }
        }
        vstd::set_lib::lemma_len_subset(ints.to_set(), range);
        assert(false);
    }
}

proof fn lemma_permute_sum(t: Seq<int>, axes: Seq<usize>)
    requires
        is_axis_permutation(axes, t.len() as int),
    ensures
        seq_sum(permute_seq(t, axes)) == seq_sum(t),
    decreases t.len(),
{
    let n = t.len() as int;
    if n > 0 {
        lemma_permutation_onto(axes, n, n - 1);
        let m = choose|k: int| 0 <= k < n && axes[k] == n - 1;
        let rest = axes.remove(m);
        let tp = t.drop_last();
        assert(is_axis_permutation(rest, n - 1)) by {
            assert forall|k: int| 0 <= k < rest.len() implies #[trigger] rest[k] < n - 1 by {
                if k < m {
                    assert(rest[k] == axes[k]);
                    assert(axes[k] != axes[m]);
                } else {
                    assert(rest[k] == axes[k + 1]);
                    assert(axes[k + 1] != axes[m]);
                }
            }
            assert forall|a: int, b: int| 0 <= a < rest.len() && 0 <= b < rest.len() && a != b implies rest[a]
                != rest[b] by {
                let a2 = if a < m { a } else { a + 1 };
                let b2 = if b < m { b } else { b + 1 };
                assert(rest[a] == axes[a2]);
                assert(rest[b] == axes[b2]);
            }
        }
        lemma_permute_sum(tp, rest);
        lemma_sum_remove(permute_seq(t, axes), m);
        assert(permute_seq(t, axes).remove(m) =~= permute_seq(tp, rest)) by {
            assert forall|k: int| 0 <= k < rest.len() implies permute_seq(t, axes).remove(m)[k] == permute_seq(
                tp,
                rest,
            )[k] by {
                assert(rest[k] < n - 1);
            }
        }
    }
}

proof fn lemma_size_remove(s: Seq<usize>, m: int)
    requires
        0 <= m < s.len(),
    ensures
        shape_size(s) == shape_size(s.remove(m)) * s[m],
    decreases s.len(),
{
    if m < s.len() - 1 {
        let d = s.drop_last();
        lemma_size_remove(d, m);
        assert(s.remove(m).drop_last() =~= d.remove(m));
        assert(s.remove(m).last() == s.last());
        let a = shape_size(d.remove(m));
        let b = s[m] as int;
        let c = s.last() as int;
        assert((a * b) * c == (a * c) * b) by (nonlinear_arith);
    } else {
        assert(s.remove(m) =~= s.drop_last());
    }
}

/// Reordering the axes keeps the number of elements.
pub proof fn lemma_permute_size(s: Seq<usize>, axes: Seq<usize>)
    requires
        is_axis_permutation(axes, s.len() as int),
    ensures
        shape_size(permute_seq(s, axes)) == shape_size(s),
    decreases s.len(),
{
    let n = s.len() as int;
    if n > 0 {
        lemma_permutation_onto(axes, n, n - 1);
        let m = choose|k: int| 0 <= k < n && axes[k] == n - 1;
        let rest = axes.remove(m);
        let sp = s.drop_last();
        assert(is_axis_permutation(rest, n - 1)) by {
            assert forall|k: int| 0 <= k < rest.len() implies #[trigger] rest[k] < n - 1 by {
                if k < m {
                    assert(rest[k] == axes[k]);
                    assert(axes[k] != axes[m]);
                } else {
                    assert(rest[k] == axes[k + 1]);
                    assert(axes[k + 1] != axes[m]);
                }
            }
            assert forall|a: int, b: int| 0 <= a < rest.len() && 0 <= b < rest.len() && a != b implies rest[a]
                != rest[b] by {
                let a2 = if a < m { a } else { a + 1 };
                let b2 = if b < m { b } else { b + 1 };
                assert(rest[a] == axes[a2]);
                assert(rest[b] == axes[b2]);
            }
        }
        lemma_permute_size(sp, rest);
        lemma_size_remove(permute_seq(s, axes), m);
        assert(permute_seq(s, axes).remove(m) =~= permute_seq(sp, rest)) by {
            assert forall|k: int| 0 <= k < rest.len() implies permute_seq(s, axes).remove(m)[k] == permute_seq(
                sp,
                rest,
            )[k] by {
                assert(rest[k] < n - 1);
            }
        }
    }
}

/// With no zero dimension, a total that fits makes every running product fit.
proof fn lemma_fits_from_total(s: Seq<usize>)
    requires
        forall|k: int| 0 <= k < s.len() ==> s[k] > 0,
        shape_size(s) <= usize::MAX,
    ensures
        size_fits(s),
    decreases s.len(),
{
    if s.len() > 0 {
        let d = s.drop_last();
        crate::numrs::shape::lemma_shape_size_nonneg(d);
        let a = shape_size(d);
        let b = s.last() as int;
        assert(a <= a * b) by (nonlinear_arith)
            requires
                a >= 0,
                b >= 1,
        ;
        lemma_fits_from_total(d);
    }
}

/// A shape whose running products fit, or that holds no element, keeps that
/// property when its axes are reordered.
pub proof fn lemma_permute_fits(s: Seq<usize>, axes: Seq<usize>)
    requires
        is_axis_permutation(axes, s.len() as int),
        size_fits(s) || shape_size(s) == 0,
    ensures
        size_fits(permute_seq(s, axes)) || shape_size(permute_seq(s, axes)) == 0,
{
    let p = permute_seq(s, axes);
    lemma_permute_size(s, axes);
    if shape_size(s) != 0 {
        crate::numrs::shape::lemma_shape_size_nonneg(s);
        lemma_positive_size_dims(p);
        if s.len() > 0 {
            assert(shape_size(s) <= usize::MAX);
        }
        lemma_fits_from_total(p);
    }
}

/// The multi-index of the unpermuted layout that a permuted multi-index reads.
pub open spec fn unpermute_index(idx: Seq<int>, axes: Seq<usize>) -> Seq<int> {
    Seq::new(axes.len(), |j: int| idx[choose|k: int| 0 <= k < axes.len() && axes[k] == j])
}

/// Reading a permuted layout at `idx` reads the unpermuted layout at the unpermuted index.
pub proof fn lemma_permute_dot(shape: Seq<usize>, strides: Seq<isize>, axes: Seq<usize>, idx: Seq<int>)
    requires
        shape.len() == strides.len(),
        is_axis_permutation(axes, shape.len() as int),
        in_bounds(idx, permute_seq(shape, axes)),
    ensures
        in_bounds(unpermute_index(idx, axes), shape),
        dot(idx, permute_seq(strides, axes)) == dot(unpermute_index(idx, axes), strides),
        forall|k: int| 0 <= k < axes.len() ==> unpermute_index(idx, axes)[axes[k] as int] == #[trigger] idx[k],
{
    let n = shape.len() as int;
    let old = unpermute_index(idx, axes);
    assert forall|k: int| 0 <= k < axes.len() implies old[axes[k] as int] == #[trigger] idx[k] by {
        let j = axes[k] as int;
        lemma_permutation_onto(axes, n, j);
        let c = choose|c: int| 0 <= c < axes.len() && axes[c] == j;
        assert(c == k);
    }
    assert forall|j: int| 0 <= j < n implies 0 <= #[trigger] old[j] < shape[j] by {
        lemma_permutation_onto(axes, n, j);
        let c = choose|c: int| 0 <= c < axes.len() && axes[c] == j;
        assert(0 <= idx[c] < permute_seq(shape, axes)[c]);
    }
    let tn = dot_terms(idx, permute_seq(strides, axes));
    let to = dot_terms(old, strides);
    assert(tn =~= permute_seq(to, axes));
    lemma_permute_sum(to, axes);
    lemma_dot_is_sum(idx, permute_seq(strides, axes), n);
    lemma_dot_is_sum(old, strides, n);
    assert(tn.take(n) =~= tn);
    assert(to.take(n) =~= to);
}

pub proof fn lemma_permute_offsets_within(
    shape: Seq<usize>,
    strides: Seq<isize>,
    axes: Seq<usize>,
    offset: int,
    len: int,
)
    requires
        shape.len() == strides.len(),
        is_axis_permutation(axes, shape.len() as int),
        offsets_within(shape, strides, offset, len),
    ensures
        offsets_within(permute_seq(shape, axes), permute_seq(strides, axes), offset, len),
{
    assert forall|idx: Seq<int>| #[trigger] in_bounds(idx, permute_seq(shape, axes)) implies 0 <= offset + dot(
        idx,
        permute_seq(strides, axes),
    ) < len by {
        lemma_permute_dot(shape, strides, axes, idx);
    }
}

/// Entries `0..i` of `axes` are axes below `ndim`, no two of them equal.
pub open spec fn axes_distinct_upto(axes: Seq<usize>, ndim: int, i: int) -> bool {
    &&& forall|k: int| 0 <= k < i ==> #[trigger] axes[k] < ndim
    &&& forall|a: int, b: int| 0 <= a < i && 0 <= b < i && a != b ==> axes[a] != axes[b]
}

/// Entry `i` of `axes` is the first one that is out of range or repeats an
/// earlier entry.
pub open spec fn first_bad_axis_entry(axes: Seq<usize>, ndim: int, i: int) -> bool {
    &&& 0 <= i < axes.len()
    &&& axes_distinct_upto(axes, ndim, i)
    &&& (axes[i] >= ndim || exists|k: int| 0 <= k < i && axes[k] == axes[i])
}

/// The error for a list of axes that is no permutation of `ndim` axes: a
/// wrong count, else the first offending entry.
pub open spec fn permute_error(axes: Seq<usize>, ndim: usize, e: NumRsError) -> bool {
    if axes.len() != ndim {
        e == (NumRsError::IndexRankMismatch { expected: ndim, actual: axes.len() as usize })
    } else {
        exists|i: int| #[trigger]
            first_bad_axis_entry(axes, ndim as int, i) && if axes[i] >= ndim {
                e == (NumRsError::AxisOutOfBounds { axis: #[verifier::truncate] (axes[i] as isize), ndim })
            } else {
                e == NumRsError::DuplicateAxis(axes[i])
            }
    }
}

/// `axes` must name each of the `ndim` axes exactly once: `IndexRankMismatch`
/// for a wrong count, `AxisOutOfBounds` or `DuplicateAxis` for the first
/// offending entry.
pub fn permute_unique_axes(axes: &[usize], ndim: usize) -> (r: Result<(), NumRsError>)
    ensures
        r is Ok <==> is_axis_permutation(axes@, ndim as int),
        r matches Err(e) ==> permute_error(axes@, ndim, e),
{
    if axes.len() != ndim {
        return Err(NumRsError::IndexRankMismatch { expected: ndim, actual: axes.len() });
    }
    let mut seen: Vec<bool> = Vec::new();
    let mut k: usize = 0;
    while k < ndim
        invariant
            k <= ndim,
            seen@.len() == k,
            forall|j: int| 0 <= j < k ==> !seen@[j],
        decreases ndim - k,
    {
        seen.push(false);
        k += 1;
    }
    let mut i: usize = 0;
    while i < axes.len()
        invariant
            i <= axes@.len(),
            axes@.len() == ndim,
            seen@.len() == ndim,
            forall|k: int| 0 <= k < i ==> #[trigger] axes@[k] < ndim,
            forall|a: int, b: int| 0 <= a < i && 0 <= b < i && a != b ==> axes@[a] != axes@[b],
            forall|j: int| 0 <= j < ndim ==> (seen@[j] <==> exists|k: int| 0 <= k < i && axes@[k] == j),
        decreases axes@.len() - i,
    {
        let axis = axes[i];
        if axis >= ndim {
            assert(first_bad_axis_entry(axes@, ndim as int, i as int));
            return Err(NumRsError::AxisOutOfBounds { axis: #[verifier::truncate] (axis as isize), ndim });
        }
        if seen[axis] {
            proof {
                let k = choose|k: int| 0 <= k < i && axes@[k] == axis;
                assert(axes@[k] == axes@[i as int]);
                assert(first_bad_axis_entry(axes@, ndim as int, i as int));
            }
            return Err(NumRsError::DuplicateAxis(axis));
        }
        seen.set(axis, true);
        i += 1;
    }
    Ok(())
}


/// Product of the dimensions `a..` of `shape`.
pub open spec fn suffix_size(shape: Seq<usize>, a: int) -> int
    decreases shape.len() - a,
{
    if a >= shape.len() {
        1
    } else {
        shape[a] * suffix_size(shape, a + 1)
    }
}

/// Sum over the axes `a..` of index times stride.
pub open spec fn dot_from(idx: Seq<int>, strides: Seq<isize>, a: int) -> int
    decreases idx.len() - a,
{
    if a >= idx.len() {
        0
    } else {
        idx[a] * strides[a] + dot_from(idx, strides, a + 1)
    }
}

proof fn lemma_dot_split(idx: Seq<int>, strides: Seq<isize>, a: int)
    requires
        0 <= a <= idx.len(),
    ensures
        dot(idx, strides) == dot_upto(idx, strides, a) + dot_from(idx, strides, a),
    decreases idx.len() - a,
{
    if a < idx.len() {
        lemma_dot_split(idx, strides, a + 1);
    }
}

proof fn lemma_suffix_size_drop_last(shape: Seq<usize>, a: int)
    requires
        0 <= a < shape.len(),
    ensures
        suffix_size(shape, a) == suffix_size(shape.drop_last(), a) * shape.last(),
    decreases shape.len() - a,
{
    if a < shape.len() - 1 {
        lemma_suffix_size_drop_last(shape, a + 1);
        let x = shape[a] as int;
        let y = suffix_size(shape.drop_last(), a + 1);
        let z = shape.last() as int;
        assert(x * (y * z) == (x * y) * z) by (nonlinear_arith);
        assert(suffix_size(shape.drop_last(), a) == shape.drop_last()[a] * suffix_size(shape.drop_last(), a + 1));
    } else {
        assert(suffix_size(shape, a + 1) == 1);
        assert(suffix_size(shape.drop_last(), a) == 1);
        assert(suffix_size(shape, a) == shape[a] * suffix_size(shape, a + 1));
    }
}

pub proof fn lemma_shape_size_suffix(shape: Seq<usize>)
    ensures
        shape_size(shape) == suffix_size(shape, 0),
    decreases shape.len(),
{
    if shape.len() > 0 {
        lemma_shape_size_suffix(shape.drop_last());
        lemma_suffix_size_drop_last(shape, 0);
    }
}

proof fn lemma_suffix_size_pos(shape: Seq<usize>, a: int)
    requires
        0 <= a,
        forall|k: int| 0 <= k < shape.len() ==> shape[k] > 0,
    ensures
        suffix_size(shape, a) >= 1,
        a < shape.len() && 0 <= a ==> suffix_size(shape, a + 1) <= suffix_size(shape, a),
    decreases shape.len() - a,
{
    if a < shape.len() {
        lemma_suffix_size_pos(shape, a + 1);
        let x = shape[a] as int;
        let y = suffix_size(shape, a + 1);
        assert(x * y >= y && x * y >= 1) by (nonlinear_arith)
            requires
                x >= 1,
                y >= 1,
        ;
    }
}

proof fn lemma_suffix_size_le_total(shape: Seq<usize>, a: int)
    requires
        forall|k: int| 0 <= k < shape.len() ==> shape[k] > 0,
        0 <= a,
    ensures
        suffix_size(shape, a) <= suffix_size(shape, 0),
    decreases a,
{
    if a > 0 {
        lemma_suffix_size_le_total(shape, a - 1);
        if a - 1 < shape.len() {
            lemma_suffix_size_pos(shape, a - 1);
        }
    }
}

proof fn lemma_c_next_is_suffix(shape: Seq<usize>, a: int)
    requires
        0 <= a,
        forall|k: int| 0 <= k < shape.len() ==> 0 < #[trigger] shape[k] <= isize::MAX,
        suffix_size(shape, a) <= isize::MAX,
    ensures
        c_next(shape, a) == suffix_size(shape, a),
    decreases shape.len() - a,
{
    if a < shape.len() {
        lemma_suffix_size_pos(shape, a);
        lemma_c_next_is_suffix(shape, a + 1);
        let x = shape[a] as int;
        let y = suffix_size(shape, a + 1);
        assert((shape[a] as isize) as int == x);
        assert(y * x == x * y) by (nonlinear_arith);
        assert(c_next(shape, a) == sat_isize(c_next(shape, a + 1) * ((shape[a] as isize) as int)));
    }
}

proof fn lemma_rem_from_div(shape: Seq<usize>, linear: int, a: int)
    requires
        0 <= a,
        linear >= 0,
        forall|k: int| 0 <= k < shape.len() ==> shape[k] > 0,
    ensures
        rem_from(shape, linear, a) == linear / suffix_size(shape, a),
    decreases shape.len() - a,
{
    if a < shape.len() {
        lemma_rem_from_div(shape, linear, a + 1);
        lemma_suffix_size_pos(shape, a + 1);
        lemma_div_denominator(linear, suffix_size(shape, a + 1), shape[a] as int);
        let x = shape[a] as int;
        let y = suffix_size(shape, a + 1);
        assert(y * x == x * y) by (nonlinear_arith);
    }
}

proof fn lemma_c_dot_from_unravel(shape: Seq<usize>, linear: int, a: int)
    requires
        0 <= a <= shape.len(),
        linear >= 0,
        forall|k: int| 0 <= k < shape.len() ==> 0 < #[trigger] shape[k] <= isize::MAX,
        suffix_size(shape, 0) <= isize::MAX,
    ensures
        dot_from(unravel(shape, linear), c_strides_spec(shape), a) == linear % suffix_size(shape, a),
    decreases shape.len() - a,
{
    lemma_suffix_size_pos(shape, a);
    if a < shape.len() {
        lemma_c_dot_from_unravel(shape, linear, a + 1);
        lemma_suffix_size_pos(shape, a + 1);
        lemma_suffix_size_le_total(shape, a + 1);
        lemma_c_next_is_suffix(shape, a + 1);
        lemma_c_next_range(shape, a + 1);
        lemma_rem_from_div(shape, linear, a + 1);
        let y = suffix_size(shape, a + 1);
        let z = shape[a] as int;
        lemma_breakdown(linear, y, z);
        assert(unravel(shape, linear)[a] == (linear / y) % z);
        assert(c_strides_spec(shape)[a] == y);
        assert(((linear / y) % z) * y == y * ((linear / y) % z)) by (nonlinear_arith);
        assert(y * z == z * y) by (nonlinear_arith);
    } else {
        assert(linear % 1 == 0);
    }
}

proof fn lemma_c_dot_from_bound(shape: Seq<usize>, idx: Seq<int>, a: int)
    requires
        0 <= a <= shape.len(),
        in_bounds(idx, shape),
        forall|k: int| 0 <= k < shape.len() ==> 0 < #[trigger] shape[k] <= isize::MAX,
        suffix_size(shape, 0) <= isize::MAX,
    ensures
        0 <= dot_from(idx, c_strides_spec(shape), a) < suffix_size(shape, a),
    decreases shape.len() - a,
{
    if a < shape.len() {
        lemma_c_dot_from_bound(shape, idx, a + 1);
        lemma_suffix_size_pos(shape, a + 1);
        lemma_suffix_size_le_total(shape, a + 1);
        lemma_c_next_is_suffix(shape, a + 1);
        lemma_c_next_range(shape, a + 1);
        let y = suffix_size(shape, a + 1);
        let d = shape[a] as int;
        let i = idx[a];
        let rest = dot_from(idx, c_strides_spec(shape), a + 1);
        assert(c_strides_spec(shape)[a] == y);
        assert(0 <= i < d);
        assert(0 <= i * y + rest < d * y) by (nonlinear_arith)
            requires
                0 <= i < d,
                0 <= rest < y,
        ;
    }
}

/// Row-major strides address exactly the buffer positions `0..size`, in order:
/// the multi-index of linear index `i` sits at offset `i`.
pub proof fn lemma_c_layout(shape: Seq<usize>)
    requires
        forall|k: int| 0 <= k < shape.len() ==> #[trigger] shape[k] <= isize::MAX,
        shape_size(shape) <= isize::MAX,
    ensures
        offsets_within(shape, c_strides_spec(shape), 0, shape_size(shape)),
        forall|i: int| 0 <= i < shape_size(shape) ==> #[trigger] dot(unravel(shape, i), c_strides_spec(shape)) == i,
{
    lemma_shape_size_suffix(shape);
    assert forall|idx: Seq<int>| #[trigger] in_bounds(idx, shape) implies 0 <= 0 + dot(idx, c_strides_spec(shape))
        < shape_size(shape) by {
        lemma_in_bounds_dims(idx, shape);
        lemma_c_dot_from_bound(shape, idx, 0);
        lemma_dot_split(idx, c_strides_spec(shape), 0);
    }
    assert forall|i: int| 0 <= i < shape_size(shape) implies #[trigger] dot(unravel(shape, i), c_strides_spec(shape))
        == i by {
        lemma_positive_size_dims(shape);
        lemma_c_dot_from_unravel(shape, i, 0);
        lemma_dot_split(unravel(shape, i), c_strides_spec(shape), 0);
        vstd::arithmetic::div_mod::lemma_small_mod(i as nat, shape_size(shape) as nat);
    }
}

/// The elements of a row-major layout over a buffer of exactly its size are the buffer.
pub proof fn lemma_c_layout_elems<T>(data: Seq<T>, shape: Seq<usize>)
    requires
        forall|k: int| 0 <= k < shape.len() ==> #[trigger] shape[k] <= isize::MAX,
        shape_size(shape) == data.len(),
        data.len() <= isize::MAX,
    ensures
        view_elems(data, shape, c_strides_spec(shape), 0) == data,
{
    lemma_c_layout(shape);
    assert(view_elems(data, shape, c_strides_spec(shape), 0) =~= data);
}


proof fn lemma_dot_from_last_positions(shape: Seq<usize>, idx: Seq<int>, a: int)
    requires
        0 <= a <= shape.len(),
        idx.len() == shape.len(),
        forall|k: int| a <= k < shape.len() ==> #[trigger] idx[k] == shape[k] - 1,
        forall|k: int| 0 <= k < shape.len() ==> 0 < #[trigger] shape[k] <= isize::MAX,
        a < shape.len() ==> suffix_size(shape, a + 1) <= isize::MAX,
    ensures
        dot_from(idx, c_strides_spec(shape), a) == suffix_size(shape, a) - 1,
    decreases shape.len() - a,
{
    if a < shape.len() {
        lemma_suffix_size_pos(shape, a);
        lemma_suffix_size_pos(shape, a + 1);
        lemma_dot_from_last_positions(shape, idx, a + 1);
        lemma_c_next_is_suffix(shape, a + 1);
        lemma_c_next_range(shape, a + 1);
        let y = suffix_size(shape, a + 1);
        let d = shape[a] as int;
        assert(c_strides_spec(shape)[a] == y);
        assert((d - 1) * y + (y - 1) == d * y - 1) by (nonlinear_arith);
    }
}

proof fn lemma_contiguous_suffix_bound(shape: Seq<usize>, offset: int, len: int, a: int)
    requires
        0 <= a <= shape.len(),
        forall|k: int| 0 <= k < shape.len() ==> 0 < #[trigger] shape[k] <= isize::MAX,
        offsets_within(shape, c_strides_spec(shape), offset, len),
        len <= isize::MAX,
    ensures
        suffix_size(shape, a) <= len - offset,
        0 <= offset,
    decreases shape.len() - a,
{
    let n = shape.len() as int;
    let zero = Seq::new(n as nat, |k: int| 0int);
    assert(in_bounds(zero, shape));
    lemma_dot_zero_strides_idx(zero, c_strides_spec(shape), n);
    if a == n {
        assert(suffix_size(shape, a) == 1);
    } else {
        lemma_contiguous_suffix_bound(shape, offset, len, a + 1);
        lemma_suffix_size_pos(shape, a + 1);
        let full = Seq::new(n as nat, |k: int| shape[k] - 1);
        let idx = zero_prefix(full, a);
        assert(in_bounds(idx, shape));
        let y = suffix_size(shape, a + 1);
        let d = shape[a] as int;
        assert(y * d <= (len - offset) * d) by (nonlinear_arith)
            requires
                y <= len - offset,
                d >= 1,
        ;
        {
            lemma_dot_from_last_positions(shape, idx, a);
            lemma_dot_split(idx, c_strides_spec(shape), a);
            lemma_dot_zero_prefix_low(full, c_strides_spec(shape), a, a);
            assert(dot_upto(idx, c_strides_spec(shape), a) == 0);
            assert(suffix_size(shape, a) == d * y);
        }
    }
}

proof fn lemma_dot_zero_strides_idx(idx: Seq<int>, strides: Seq<isize>, n: int)
    requires
        0 <= n <= idx.len(),
        forall|k: int| 0 <= k < n ==> idx[k] == 0,
    ensures
        dot_upto(idx, strides, n) == 0,
    decreases n,
{
    if n > 0 {
        lemma_dot_zero_strides_idx(idx, strides, n - 1);
    }
}

/// A non-empty row-major layout inside a buffer of `len <= isize::MAX`
/// elements starts at a non-negative offset and its elements end inside the buffer.
pub proof fn lemma_contiguous_fits(shape: Seq<usize>, offset: int, len: int)
    requires
        shape_size(shape) > 0,
        forall|k: int| 0 <= k < shape.len() ==> #[trigger] shape[k] <= isize::MAX,
        offsets_within(shape, c_strides_spec(shape), offset, len),
        len <= isize::MAX,
    ensures
        0 <= offset,
        offset + shape_size(shape) <= len,
{
    lemma_positive_size_dims(shape);
    lemma_contiguous_suffix_bound(shape, offset, len, 0);
    lemma_shape_size_suffix(shape);
}


/// Inserting an axis of length 1 with stride 0 does not move any element.
pub proof fn lemma_dot_insert(idx: Seq<int>, strides: Seq<isize>, a: int, n: int)
    requires
        0 <= a <= n,
        n == idx.len() - 1,
        idx[a] == 0,
        strides.len() == n,
    ensures
        dot(idx, strides.insert(a, 0isize)) == dot(idx.remove(a), strides),
{
    lemma_dot_insert_upto(idx, strides, a, n + 1);
}

proof fn lemma_dot_insert_upto(idx: Seq<int>, strides: Seq<isize>, a: int, m: int)
    requires
        0 <= a <= strides.len(),
        strides.len() == idx.len() - 1,
        0 <= m <= idx.len(),
        idx[a] == 0,
    ensures
        dot_upto(idx, strides.insert(a, 0isize), m) == if m <= a {
            dot_upto(idx.remove(a), strides, m)
        } else {
            dot_upto(idx.remove(a), strides, m - 1)
        },
    decreases m,
{
    if m > 0 {
        lemma_dot_insert_upto(idx, strides, a, m - 1);
    }
}

/// Inserting a dimension of length 1 keeps the size and the running-product bound.
pub proof fn lemma_size_insert_one(shape: Seq<usize>, a: int)
    requires
        0 <= a <= shape.len(),
    ensures
        shape_size(shape.insert(a, 1usize)) == shape_size(shape),
        size_fits(shape) ==> size_fits(shape.insert(a, 1usize)),
    decreases shape.len(),
{
    let ins = shape.insert(a, 1usize);
    if a == shape.len() {
        assert(ins.drop_last() =~= shape);
        if shape.len() > 0 {
            assert(ins.last() == 1);
        }
    } else {
        lemma_size_insert_one(shape.drop_last(), a);
        assert(ins.drop_last() =~= shape.drop_last().insert(a, 1usize));
        assert(ins.last() == shape.last());
    }
}


/// The axes in reverse order.
pub open spec fn reversed_axes(n: int) -> Seq<usize> {
    Seq::new(n as nat, |k: int| (n - 1 - k) as usize)
}

/// Transposing reverses the axes, so transposing twice gives back the
/// starting shape and strides, and so the starting view.
pub proof fn lemma_transpose_twice<A>(s: Seq<A>)
    requires
        s.len() <= usize::MAX,
    ensures
        permute_seq(permute_seq(s, reversed_axes(s.len() as int)), reversed_axes(s.len() as int)) == s,
{
    let n = s.len() as int;
    let rev = reversed_axes(n);
    let once = permute_seq(s, rev);
    assert(permute_seq(once, rev) =~= s) by {
        assert forall|k: int| 0 <= k < n implies permute_seq(once, rev)[k] == s[k] by {
            assert(rev[k] as int == n - 1 - k);
            assert(rev[n - 1 - k] as int == k);
        }
    }
}

/// Unraveling against a shape with an inserted length-1 axis puts a 0 there
/// and leaves the other coordinates alone.
pub proof fn lemma_unravel_insert(shape: Seq<usize>, a: int, linear: int)
    requires
        0 <= a <= shape.len(),
        linear >= 0,
    ensures
        unravel(shape.insert(a, 1usize), linear) == unravel(shape, linear).insert(a, 0),
{
    let ins = shape.insert(a, 1usize);
    assert forall|k: int| a < k <= shape.len() implies rem_from(ins, linear, k) == rem_from(shape, linear, k - 1) by {
        lemma_rem_insert_high(shape, a, linear, k);
    }
    assert forall|k: int| 0 <= k <= a implies rem_from(ins, linear, k) == rem_from(shape, linear, k) by {
        lemma_rem_insert_low(shape, a, linear, k);
    }
    assert(unravel(ins, linear) =~= unravel(shape, linear).insert(a, 0)) by {
        assert forall|k: int| 0 <= k < ins.len() implies unravel(ins, linear)[k] == unravel(shape, linear).insert(a, 0)[k] by {
            if k < a {
                assert(ins[k] == shape[k]);
            } else if k > a {
                assert(ins[k] == shape[k - 1]);
            } else {
                assert(ins[k] == 1);
                lemma_rem_from_nonneg(ins, linear, k + 1);
            }
        }
    }
}

proof fn lemma_rem_insert_high(shape: Seq<usize>, a: int, linear: int, k: int)
    requires
        0 <= a < k <= shape.len() + 1,
    ensures
        rem_from(shape.insert(a, 1usize), linear, k) == rem_from(shape, linear, k - 1),
    decreases shape.len() + 1 - k,
{
    if k < shape.len() + 1 {
        lemma_rem_insert_high(shape, a, linear, k + 1);
        assert(shape.insert(a, 1usize)[k] == shape[k - 1]);
    }
}

proof fn lemma_rem_insert_low(shape: Seq<usize>, a: int, linear: int, k: int)
    requires
        0 <= k <= a <= shape.len(),
    ensures
        rem_from(shape.insert(a, 1usize), linear, k) == rem_from(shape, linear, k),
    decreases a - k,
{
    let ins = shape.insert(a, 1usize);
    if k == a {
        lemma_rem_insert_high(shape, a, linear, a + 1);
        if a < shape.len() + 1 {
            assert(ins[a] == 1);
        }
    } else {
        lemma_rem_insert_low(shape, a, linear, k + 1);
        assert(ins[k] == shape[k]);
    }
}


/// The row-major multi-index of `linear`, as a vector of coordinates.
pub fn unravel_index(shape: &[usize], linear: usize) -> (r: Vec<usize>)
    ensures
        to_ints(r@) == unravel(shape@, linear as int),
        r@.len() == shape@.len(),
{
    let n = shape.len();
    let mut index: Vec<usize> = Vec::new();
    let mut k: usize = 0;
    while k < n
        invariant
            k <= n,
            index@.len() == k,
        decreases n - k,
    {
        index.push(0);
        k += 1;
    }
    let mut remainder = linear;
    let mut axis = n;
    proof {
        lemma_rem_from_nonneg(shape@, linear as int, n as int);
    }
    while axis > 0
        invariant
            axis <= n,
            n == shape@.len(),
            index@.len() == n,
            remainder == rem_from(shape@, linear as int, axis as int),
            forall|j: int| axis <= j < n ==> index@[j] as int == digit(shape@, linear as int, j),
        decreases axis,
    {
        axis -= 1;
        let dim = shape[axis];
        if dim == 0 {
            index.set(axis, 0);
            remainder = 0;
        } else {
            index.set(axis, remainder % dim);
            remainder = remainder / dim;
        }
    }
    assert(to_ints(index@) =~= unravel(shape@, linear as int));
    index
}


/// Every dimension of `s`, aligned from the right, is 1 or the matching dimension of `b`.
pub open spec fn bcast_le(s: Seq<usize>, b: Seq<usize>) -> bool {
    &&& s.len() <= b.len()
    &&& forall|i: int| 0 <= i < b.len() ==> #[trigger] dim_right(s, i) == 1 || dim_right(s, i) == dim_right(b, i)
}

pub proof fn lemma_bcast_le_broadcasts_to(s: Seq<usize>, b: Seq<usize>)
    requires
        bcast_le(s, b),
    ensures
        broadcasts_to(s, b),
{
    let n = b.len() as int;
    assert(max_len(s.len() as int, n) == n);
    assert forall|i: int| 0 <= i < n implies #[trigger] dims_broadcast(dim_right(s, i), dim_right(b, i)) by {
        assert(dim_right(s, i) == 1 || dim_right(s, i) == dim_right(b, i));
    }
    assert(broadcast_shape_spec(s, b) =~= b) by {
        assert forall|k: int| 0 <= k < n implies broadcast_shape_spec(s, b)[k] == b[k] by {
            let i = n - 1 - k;
            assert(dim_right(s, i) == 1 || dim_right(s, i) == dim_right(b, i));
            assert(dim_right(b, i) == b[k]);
        }
    }
}

pub proof fn lemma_bcast_le_trans(s: Seq<usize>, b1: Seq<usize>, b2: Seq<usize>)
    requires
        bcast_le(s, b1),
        bcast_le(b1, b2),
    ensures
        bcast_le(s, b2),
{
    assert forall|i: int| 0 <= i < b2.len() implies #[trigger] dim_right(s, i) == 1 || dim_right(s, i) == dim_right(b2, i) by {
        if i < b1.len() {
            assert(dim_right(s, i) == 1 || dim_right(s, i) == dim_right(b1, i));
            assert(dim_right(b1, i) == 1 || dim_right(b1, i) == dim_right(b2, i));
        } else {
            assert(dim_right(b1, i) == 1 || dim_right(b1, i) == dim_right(b2, i));
            assert(i >= s.len());
        }
    }
}

/// Both operands of a broadcast fit under its result, whose dimensions come from the operands.
pub proof fn lemma_broadcast_result(left: Seq<usize>, right: Seq<usize>)
    requires
        shapes_broadcast(left, right),
    ensures
        bcast_le(left, broadcast_shape_spec(left, right)),
        bcast_le(right, broadcast_shape_spec(left, right)),
        broadcast_shape_spec(left, right).len() == max_len(left.len() as int, right.len() as int),
        forall|k: int|
            0 <= k < broadcast_shape_spec(left, right).len() ==> #[trigger] broadcast_shape_spec(left, right)[k] == 1
                || exists|j: int| 0 <= j < left.len() && broadcast_shape_spec(left, right)[k] == left[j]
                || exists|j: int| 0 <= j < right.len() && broadcast_shape_spec(left, right)[k] == right[j],
{
    let b = broadcast_shape_spec(left, right);
    let n = b.len() as int;
    assert forall|i: int| 0 <= i < n implies #[trigger] dim_right(b, i) == broadcast_dim(dim_right(left, i), dim_right(right, i)) by {
        assert(b[n - 1 - i] == broadcast_dim(dim_right(left, n - 1 - (n - 1 - i)), dim_right(right, n - 1 - (n - 1 - i))));
    }
    assert forall|i: int| 0 <= i < n implies #[trigger] dim_right(left, i) == 1 || dim_right(left, i) == dim_right(b, i) by {
        assert(dims_broadcast(dim_right(left, i), dim_right(right, i)));
    }
    assert forall|i: int| 0 <= i < n implies #[trigger] dim_right(right, i) == 1 || dim_right(right, i) == dim_right(b, i) by {
        assert(dims_broadcast(dim_right(left, i), dim_right(right, i)));
    }
    assert forall|k: int| 0 <= k < n implies #[trigger] b[k] == 1 || (exists|j: int| 0 <= j < left.len() && b[k] == left[j])
        || (exists|j: int| 0 <= j < right.len() && b[k] == right[j]) by {
        let i = n - 1 - k;
        let l = dim_right(left, i);
        let r = dim_right(right, i);
        if 0 <= i < left.len() {
            assert(l == left[left.len() - 1 - i]);
        }
        if 0 <= i < right.len() {
            assert(r == right[right.len() - 1 - i]);
        }
    }
}

} // verus!
