use vstd::prelude::*;
use crate::numrs::error::NumRsError;
use crate::numrs::array::{Array, ArrayView};
use crate::numrs::layout::{in_bounds, lemma_positive_size_dims, lemma_unravel_in_bounds, to_ints, unravel, unravel_index};
use crate::numrs::shape::{lemma_shape_size_nonneg, shape_size, size_fits};

verus! {

/// Positions (in increasing order) of the true entries of `s`.
pub open spec fn true_positions(s: Seq<bool>) -> Seq<int>
    decreases s.len(),
{
    if s.len() == 0 {
        Seq::empty()
    } else if s.last() {
        true_positions(s.drop_last()).push(s.len() - 1)
    } else {
        true_positions(s.drop_last())
    }
}

/// Coordinate along axis `d`, within `shape`, of each row-major position.
pub open spec fn axis_coords(shape: Seq<usize>, positions: Seq<int>, d: int) -> Seq<i64> {
    Seq::new(positions.len(), |j: int| unravel(shape, positions[j])[d] as i64)
}

pub proof fn lemma_true_positions(s: Seq<bool>)
    ensures
        true_positions(s).len() <= s.len(),
        forall|j: int| 0 <= j < true_positions(s).len() ==> 0 <= #[trigger] true_positions(s)[j] < s.len(),
        forall|j: int| 0 <= j < true_positions(s).len() ==> s[#[trigger] true_positions(s)[j]],
        forall|i: int, j: int|
            0 <= i < j < true_positions(s).len() ==> #[trigger] true_positions(s)[i] < #[trigger] true_positions(s)[j],
        forall|p: int| 0 <= p < s.len() && #[trigger] s[p] ==> true_positions(s).contains(p),
    decreases s.len(),
{
    if s.len() > 0 {
        let q = s.drop_last();
        lemma_true_positions(q);
        let tq = true_positions(q);
        assert forall|p: int| 0 <= p < s.len() && #[trigger] s[p] implies true_positions(s).contains(p) by {
            if p < s.len() - 1 {
                assert(q[p] == s[p]);
                let j = choose|j: int| 0 <= j < tq.len() && tq[j] == p;
                assert(true_positions(s)[j] == p);
            } else {
                assert(true_positions(s)[true_positions(s).len() - 1] == p);
            }
        }
    }
}

/// A length-one shape.
pub proof fn lemma_vector_shape(n: usize)
    ensures
        shape_size(seq![n]) == n,
        size_fits(seq![n]),
{
    let e = Seq::<usize>::empty();
    assert(seq![n].drop_last() =~= e);
    assert(seq![n].last() == n);
    assert(shape_size(e) == 1);
    assert(size_fits(e));
}

impl<'a> ArrayView<'a, bool> {
    /// For each axis, the coordinates along that axis of the true elements,
    /// listed in row-major order.
    pub fn nonzero(&self) -> (r: Result<Vec<Array<i64>>, NumRsError>)
        requires
            self.wf(),
        ensures
            match r {
                Ok(v) => v@.len() == self.shape_spec().len() && forall|d: int|
                    0 <= d < v@.len() ==> {
                        &&& (#[trigger] v@[d]).wf()
                        &&& v@[d].shape_spec() == seq![true_positions(self.elems()).len() as usize]
                        &&& v@[d].elems() == axis_coords(self.shape_spec(), true_positions(self.elems()), d)
                    },
                Err(e) => self.shape_spec().len() > 0 && true_positions(self.elems()).len() > isize::MAX && e
                    == NumRsError::ShapeOverflow,
            },
    {
        let shape = self.shape();
        let n = self.len();
        let ndim = shape.len();
        let mut out: Vec<Array<i64>> = Vec::new();
        let mut d: usize = 0;
        while d < ndim
            invariant
                self.wf(),
                shape@ == self.shape_spec(),
                ndim == shape@.len(),
                n == self.elems().len(),
                n == shape_size(shape@),
                d <= ndim,
                out@.len() == d,
                forall|e: int|
                    0 <= e < d ==> {
                        &&& (#[trigger] out@[e]).wf()
                        &&& out@[e].shape_spec() == seq![true_positions(self.elems()).len() as usize]
                        &&& out@[e].elems() == axis_coords(self.shape_spec(), true_positions(self.elems()), e)
                    },
            decreases ndim - d,
        {
            let mut col: Vec<i64> = Vec::new();
            let mut i: usize = 0;
            while i < n
                invariant
                    self.wf(),
                    shape@ == self.shape_spec(),
                    ndim == shape@.len(),
                    d < ndim,
                    n == self.elems().len(),
                    n == shape_size(shape@),
                    i <= n,
                    col@ == axis_coords(shape@, true_positions(self.elems().take(i as int)), d as int),
                decreases n - i,
            {
                let ghost pre = self.elems().take(i as int);
                let ghost next = self.elems().take(i as int + 1);
                assert(next.drop_last() =~= pre);
                if self.elem(i) {
                    proof {
                        lemma_positive_size_dims(shape@);
                        lemma_unravel_in_bounds(shape@, i as int);
                    }
                    let idx = unravel_index(shape, i);
                    let c = idx[d];
                    proof {
                        assert(to_ints(idx@)[d as int] == c);
                        assert(c < shape@[d as int]);
                        assert(shape@[d as int] <= isize::MAX);
                    }
                    col.push(c as i64);
                    proof {
                        assert(true_positions(next) == true_positions(pre).push(i as int));
                        assert(col@ =~= axis_coords(shape@, true_positions(next), d as int));
                    }
                } else {
                    assert(true_positions(next) == true_positions(pre));
                }
                i += 1;
            }
            assert(self.elems().take(n as int) =~= self.elems());
            proof {
                lemma_true_positions(self.elems());
                lemma_vector_shape(col@.len() as usize);
            }
            let m = col.len();
            if m > isize::MAX as usize {
                return Err(NumRsError::ShapeOverflow);
            }
            let mut vshape: Vec<usize> = Vec::new();
            vshape.push(m);
            assert(vshape@ =~= seq![m]);
            let a = Array::from_vec_trusted(vshape, col);
            out.push(a);
            d += 1;
        }
        Ok(out)
    }
}

} // verus!
