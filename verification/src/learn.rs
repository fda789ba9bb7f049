//! Classification metrics over integer labels.
use vstd::prelude::*;
use crate::display::{push_decimal, push_str, string_from_chars};
use crate::text::decimal_text;

verus! {

/// Why a learning routine refused its input.
#[derive(Debug, Clone, PartialEq, Eq)]
pub enum LearnRustError {
    EmptyInput,
    ShapeMismatch { expected: usize, actual: usize },
    InvalidShape(String),
    NotFitted,
}

/// The description of an error, as its `Display` text reads.
pub open spec fn learn_message(e: LearnRustError) -> Seq<char> {
    match e {
        LearnRustError::EmptyInput => "input must not be empty"@,
        LearnRustError::ShapeMismatch { expected, actual } => "shape mismatch: expected "@ + decimal_text(
            expected as nat,
        ) + ", got "@ + decimal_text(actual as nat),
        LearnRustError::InvalidShape(m) => m@,
        LearnRustError::NotFitted => "model has not been fitted"@,
    }
}

impl LearnRustError {
    /// Human-readable description of the error.
    pub fn message(&self) -> (r: String)
        ensures
            r@ == learn_message(*self),
    {
        let mut out: Vec<char> = Vec::new();
        match self {
            LearnRustError::EmptyInput => push_str(&mut out, "input must not be empty"),
            LearnRustError::ShapeMismatch { expected, actual } => {
                push_str(&mut out, "shape mismatch: expected ");
                push_decimal(&mut out, *expected as u128);
                push_str(&mut out, ", got ");
                push_decimal(&mut out, *actual as u128);
            },
            LearnRustError::InvalidShape(m) => push_str(&mut out, m.as_str()),
            LearnRustError::NotFitted => push_str(&mut out, "model has not been fitted"),
        }
        proof {
            assert(out@ =~= learn_message(*self));
        }
        string_from_chars(&out)
    }
}

/// The position that `v` is given among `labels`: its last occurrence, as a
/// map filled in label order keeps it, or `None` when it does not occur.
pub open spec fn label_position(labels: Seq<i64>, v: i64) -> Option<int>
    decreases labels.len(),
{
    if labels.len() == 0 {
        None
    } else if labels.last() == v {
        Some(labels.len() - 1)
    } else {
        label_position(labels.drop_last(), v)
    }
}

/// How many of the first `n` pairs have their actual label at position `row`
/// and their predicted label at position `col`.
pub open spec fn pair_count(y_true: Seq<i64>, y_pred: Seq<i64>, labels: Seq<i64>, n: int, row: int, col: int) -> nat
    decreases n,
{
    if n <= 0 {
        0
    } else {
        pair_count(y_true, y_pred, labels, n - 1, row, col) + if label_position(labels, y_true[n - 1]) == Some(row)
            && label_position(labels, y_pred[n - 1]) == Some(col) {
            1nat
        } else {
            0nat
        }
    }
}

proof fn lemma_pair_count_bound(y_true: Seq<i64>, y_pred: Seq<i64>, labels: Seq<i64>, n: int, row: int, col: int)
    requires
        n >= 0,
    ensures
        pair_count(y_true, y_pred, labels, n, row, col) <= n,
    decreases n,
{
    if n > 0 {
        lemma_pair_count_bound(y_true, y_pred, labels, n - 1, row, col);
    }
}

proof fn lemma_cell_unique(r1: int, c1: int, r2: int, c2: int, k: int)
    by (nonlinear_arith)
    requires
        0 <= r1 < k,
        0 <= c1 < k,
        0 <= r2 < k,
        0 <= c2 < k,
        r1 * k + c1 == r2 * k + c2,
    ensures
        r1 == r2,
        c1 == c2,
{
}

fn find_label(labels: &[i64], v: i64) -> (r: Option<usize>)
    ensures
        match r {
            Some(k) => k < labels.len() && label_position(labels@, v) == Some(k as int),
            None => label_position(labels@, v) is None,
        },
{
    let mut i = labels.len();
    assert(labels@.take(i as int) =~= labels@);
    while i > 0
        invariant
            i <= labels.len(),
            label_position(labels@, v) == label_position(labels@.take(i as int), v),
        decreases i,
    {
        let ghost t = labels@.take(i as int);
        assert(t.drop_last() =~= labels@.take(i - 1));
        if labels[i - 1] == v {
            return Some(i - 1);
        }
        i = i - 1;
    }
    None
}

/// The confusion matrix of actual against predicted labels, row by row: entry
/// `row * k + col` counts the pairs whose actual label stands at position
/// `row` of `labels` and whose predicted label stands at `col`; pairs with a
/// label outside `labels` are not counted.
pub fn confusion_matrix(y_true: &[i64], y_pred: &[i64], labels: &[i64]) -> (r: Result<Vec<usize>, LearnRustError>)
    requires
        labels.len() * labels.len() <= usize::MAX,
    ensures
        y_true.len() != y_pred.len() ==> r == Err::<Vec<usize>, LearnRustError>(
            LearnRustError::ShapeMismatch { expected: y_true.len(), actual: y_pred.len() },
        ),
        y_true.len() == y_pred.len() && labels.len() == 0 ==> r == Err::<Vec<usize>, LearnRustError>(
            LearnRustError::EmptyInput,
        ),
        y_true.len() == y_pred.len() && labels.len() > 0 ==> (r matches Ok(m) && m.len() == labels.len()
            * labels.len() && forall|row: int, col: int|
            0 <= row < labels.len() && 0 <= col < labels.len() ==> #[trigger] m@[row * labels.len() + col]
                == pair_count(y_true@, y_pred@, labels@, y_true.len() as int, row, col)),
{
    if y_true.len() != y_pred.len() {
        return Err(LearnRustError::ShapeMismatch { expected: y_true.len(), actual: y_pred.len() });
    }
    if labels.len() == 0 {
        return Err(LearnRustError::EmptyInput);
    }
    let k = labels.len();
    let size = k * k;
    let mut out: Vec<usize> = Vec::new();
    while out.len() < size
        invariant
            out.len() <= size,
            forall|j: int| 0 <= j < out.len() ==> out@[j] == 0,
        decreases size - out.len(),
    {
        out.push(0);
    }
    proof {
        assert forall|row: int, col: int| 0 <= row < k && 0 <= col < k implies #[trigger] out@[row * k + col]
            == pair_count(y_true@, y_pred@, labels@, 0, row, col) by {
            assert(0 <= row * k + col < k * k) by (nonlinear_arith)
                requires
                    0 <= row < k,
                    0 <= col < k,
            ;
        }
    }
    let mut i: usize = 0;
    while i < y_true.len()
        invariant
            y_true.len() == y_pred.len(),
            k == labels.len(),
            size == k * k,
            k > 0,
            i <= y_true.len(),
            out.len() == size,
            forall|row: int, col: int|
                0 <= row < k && 0 <= col < k ==> #[trigger] out@[row * k + col] == pair_count(
                    y_true@,
                    y_pred@,
                    labels@,
                    i as int,
                    row,
                    col,
                ),
        decreases y_true.len() - i,
    {
        let a = find_label(labels, y_true[i]);
        let p = find_label(labels, y_pred[i]);
        match (a, p) {
            (Some(row), Some(col)) => {
                proof {
                    lemma_pair_count_bound(y_true@, y_pred@, labels@, i as int, row as int, col as int);
                    assert(row * k + col < k * k) by (nonlinear_arith)
                        requires
                            row < k,
                            col < k,
                    ;
                }
                let idx = row * k + col;
                let ghost before = out@;
                let cur = out[idx];
                out.set(idx, cur + 1);
                assert forall|r2: int, c2: int| 0 <= r2 < k && 0 <= c2 < k implies #[trigger] out@[r2 * k + c2]
                    == pair_count(y_true@, y_pred@, labels@, i + 1, r2, c2) by {
                    assert(0 <= r2 * k + c2 < k * k) by (nonlinear_arith)
                        requires
                            0 <= r2 < k,
                            0 <= c2 < k,
                    ;
                    if r2 * k + c2 == idx {
                        lemma_cell_unique(r2, c2, row as int, col as int, k as int);
                    } else {
                        assert(before[r2 * k + c2] == pair_count(y_true@, y_pred@, labels@, i as int, r2, c2));
                    }
                }
            },
            _ => {},
        }
        i = i + 1;
    }
    Ok(out)
}

/// How many of the first `n` pairs agree.
pub open spec fn agreements(y_true: Seq<i64>, y_pred: Seq<i64>, n: int) -> nat
    decreases n,
{
    if n <= 0 {
        0
    } else {
        agreements(y_true, y_pred, n - 1) + if y_true[n - 1] == y_pred[n - 1] {
            1nat
        } else {
            0nat
        }
    }
}

/// The number of positions where the predicted label equals the actual one,
/// for sequences of one non-zero length; the accuracy is this count over the
/// length.
pub fn correct_count(y_true: &[i64], y_pred: &[i64]) -> (r: Result<usize, LearnRustError>)
    ensures
        y_true.len() != y_pred.len() ==> r == Err::<usize, LearnRustError>(
            LearnRustError::ShapeMismatch { expected: y_true.len(), actual: y_pred.len() },
        ),
        y_true.len() == y_pred.len() && y_true.len() == 0 ==> r == Err::<usize, LearnRustError>(
            LearnRustError::EmptyInput,
        ),
        y_true.len() == y_pred.len() && y_true.len() > 0 ==> r == Ok::<usize, LearnRustError>(
            agreements(y_true@, y_pred@, y_true.len() as int) as usize,
        ),
{
    if y_true.len() != y_pred.len() {
        return Err(LearnRustError::ShapeMismatch { expected: y_true.len(), actual: y_pred.len() });
    }
    if y_true.len() == 0 {
        return Err(LearnRustError::EmptyInput);
    }
    let mut n: usize = 0;
    let mut i: usize = 0;
    while i < y_true.len()
        invariant
            y_true.len() == y_pred.len(),
            i <= y_true.len(),
            n == agreements(y_true@, y_pred@, i as int),
            n <= i,
        decreases y_true.len() - i,
    {
        if y_true[i] == y_pred[i] {
            n = n + 1;
        }
        i = i + 1;
    }
    Ok(n)
}

/// Whether `v` occurs in either sequence.
pub open spec fn seen(y_true: Seq<i64>, y_pred: Seq<i64>, v: i64) -> bool {
    y_true.contains(v) || y_pred.contains(v)
}

fn insert_sorted(out: &mut Vec<i64>, v: i64)
    requires
        forall|a: int, b: int| 0 <= a < b < old(out).len() ==> old(out)@[a] < old(out)@[b],
    ensures
        forall|a: int, b: int| 0 <= a < b < final(out).len() ==> final(out)@[a] < final(out)@[b],
        forall|x: i64| final(out)@.contains(x) <==> old(out)@.contains(x) || x == v,
{
    let mut pos: usize = 0;
    while pos < out.len() && out[pos] < v
        invariant
            out@ == old(out)@,
            pos <= out.len(),
            forall|j: int| 0 <= j < pos ==> out@[j] < v,
        decreases out.len() - pos,
    {
        pos = pos + 1;
    }
    if pos < out.len() && out[pos] == v {
        assert(out@[pos as int] == v);
        return;
    }
    let ghost before = out@;
    assert(before == old(out)@);
    out.insert(pos, v);
    assert forall|x: i64| #[trigger] out@.contains(x) <==> old(out)@.contains(x) || x == v by {
        if out@.contains(x) {
            let j = choose|j: int| 0 <= j < out@.len() && out@[j] == x;
            if j < pos {
                assert(before[j] == x);
            } else if j > pos {
                assert(before[j - 1] == x);
            }
        }
        if before.contains(x) {
            let j = choose|j: int| 0 <= j < before.len() && before[j] == x;
            if j < pos {
                assert(out@[j] == x);
            } else {
                assert(out@[j + 1] == x);
            }
        }
        if x == v {
            assert(out@[pos as int] == x);
        }
    }
}

/// Every label that occurs in either sequence, once each, in increasing order.
pub fn inferred_labels(y_true: &[i64], y_pred: &[i64]) -> (r: Vec<i64>)
    ensures
        forall|a: int, b: int| 0 <= a < b < r.len() ==> r@[a] < r@[b],
        forall|x: i64| r@.contains(x) <==> seen(y_true@, y_pred@, x),
{
    let mut out: Vec<i64> = Vec::new();
    let mut i: usize = 0;
    while i < y_true.len()
        invariant
            i <= y_true.len(),
            forall|a: int, b: int| 0 <= a < b < out.len() ==> out@[a] < out@[b],
            forall|x: i64| out@.contains(x) <==> y_true@.take(i as int).contains(x),
        decreases y_true.len() - i,
    {
        let ghost before = out@;
        insert_sorted(&mut out, y_true[i]);
        assert forall|x: i64| out@.contains(x) <==> y_true@.take(i + 1).contains(x) by {
            let t = y_true@.take(i + 1);
            if y_true@.take(i as int).contains(x) {
                let j = choose|j: int| 0 <= j < i && y_true@.take(i as int)[j] == x;
                assert(t[j] == x);
            }
            if x == y_true@[i as int] {
                assert(t[i as int] == x);
            }
            if t.contains(x) {
                let j = choose|j: int| 0 <= j < t.len() && t[j] == x;
                if j < i {
                    assert(y_true@.take(i as int)[j] == x);
                }
            }
        }
        i = i + 1;
    }
    assert(y_true@.take(i as int) =~= y_true@);
    let mut i: usize = 0;
    while i < y_pred.len()
        invariant
            i <= y_pred.len(),
            forall|a: int, b: int| 0 <= a < b < out.len() ==> out@[a] < out@[b],
            forall|x: i64| out@.contains(x) <==> y_true@.contains(x) || y_pred@.take(i as int).contains(x),
        decreases y_pred.len() - i,
    {
        insert_sorted(&mut out, y_pred[i]);
        assert forall|x: i64| out@.contains(x) <==> y_true@.contains(x) || y_pred@.take(i + 1).contains(x) by {
            let t = y_pred@.take(i + 1);
            if y_pred@.take(i as int).contains(x) {
                let j = choose|j: int| 0 <= j < i && y_pred@.take(i as int)[j] == x;
                assert(t[j] == x);
            }
            if x == y_pred@[i as int] {
                assert(t[i as int] == x);
            }
            if t.contains(x) {
                let j = choose|j: int| 0 <= j < t.len() && t[j] == x;
                if j < i {
                    assert(y_pred@.take(i as int)[j] == x);
                }
            }
        }
        i = i + 1;
    }
    assert(y_pred@.take(i as int) =~= y_pred@);
    out
}

} // verus!
