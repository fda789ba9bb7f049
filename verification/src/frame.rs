//! Column-frame checks and group-by row grouping.
use vstd::prelude::*;
use crate::display::{push_decimal, push_str, string_from_chars};
use crate::text::decimal_text;
use std::time::Duration;
use crate::timing::{self, is_median_sample};
use crate::evidence::{first_from, lemma_first_from};

verus! {

/// Why a frame or an aggregation is refused.
#[derive(Debug, Clone, PartialEq)]
pub enum FrameError {
    EmptyFrame,
    DuplicateColumn(String),
    LengthMismatch { column: String, expected: usize, actual: usize },
    MissingColumn(String),
    UnsupportedKeyColumn(String),
    NonNumericColumn(String),
}

/// The description of an error, as its `Display` text reads.
pub open spec fn frame_message(e: FrameError) -> Seq<char> {
    match e {
        FrameError::EmptyFrame => "frame requires at least one column"@,
        FrameError::DuplicateColumn(n) => "duplicate column: "@ + n@,
        FrameError::LengthMismatch { column, expected, actual } => "column "@ + column@ + " has length "@
            + decimal_text(actual as nat) + ", expected "@ + decimal_text(expected as nat),
        FrameError::MissingColumn(n) => "missing column: "@ + n@,
        FrameError::UnsupportedKeyColumn(n) => "column "@ + n@ + " cannot be used as a group key"@,
        FrameError::NonNumericColumn(n) => "column "@ + n@ + " is not numeric"@,
    }
}

impl FrameError {
    /// Human-readable description of the error.
    pub fn message(&self) -> (r: String)
        ensures
            r@ == frame_message(*self),
    {
        let mut out: Vec<char> = Vec::new();
        match self {
            FrameError::EmptyFrame => push_str(&mut out, "frame requires at least one column"),
            FrameError::DuplicateColumn(n) => {
                push_str(&mut out, "duplicate column: ");
                push_str(&mut out, n.as_str());
            },
            FrameError::LengthMismatch { column, expected, actual } => {
                push_str(&mut out, "column ");
                push_str(&mut out, column.as_str());
                push_str(&mut out, " has length ");
                push_decimal(&mut out, *actual as u128);
                push_str(&mut out, ", expected ");
                push_decimal(&mut out, *expected as u128);
            },
            FrameError::MissingColumn(n) => {
                push_str(&mut out, "missing column: ");
                push_str(&mut out, n.as_str());
            },
            FrameError::UnsupportedKeyColumn(n) => {
                push_str(&mut out, "column ");
                push_str(&mut out, n.as_str());
                push_str(&mut out, " cannot be used as a group key");
            },
            FrameError::NonNumericColumn(n) => {
                push_str(&mut out, "column ");
                push_str(&mut out, n.as_str());
                push_str(&mut out, " is not numeric");
            },
        }
        proof {
            assert(out@ =~= frame_message(*self));
        }
        string_from_chars(&out)
    }
}

/// A group key: a value of an integer, boolean or text column.
#[derive(Debug, Clone, PartialEq, Eq, Hash)]
pub enum Key {
    I64(i64),
    Bool(bool),
    Text(String),
}

/// What a key is, with its text taken by value.
pub open spec fn key_model(k: Key) -> (int, i64, bool, Seq<char>) {
    match k {
        Key::I64(v) => (0, v, false, Seq::empty()),
        Key::Bool(b) => (1, 0, b, Seq::empty()),
        Key::Text(s) => (2, 0, false, s@),
    }
}

/// The reductions a group-by computes.
#[derive(Debug, Clone, Copy, PartialEq, Eq, Structural)]
pub enum AggregationKind {
    Count,
    Sum,
    Mean,
    Min,
    Max,
}

/// One output column of a group-by: which column it reduces (none for a row
/// count), how, and the output column's name.
#[derive(Debug, Clone, PartialEq, Eq)]
pub struct Aggregation {
    pub column: Option<String>,
    pub kind: AggregationKind,
    pub output: String,
}

/// `a` reduces the column `column` with `kind` into `output`.
pub open spec fn numeric_agg(a: Aggregation, column: Seq<char>, kind: AggregationKind, output: Seq<char>) -> bool {
    &&& a.column matches Some(c) && c@ == column
    &&& a.kind == kind
    &&& a.output@ == output
}

impl Aggregation {
    /// The number of rows in each group.
    pub fn count(output: &str) -> (r: Aggregation)
        ensures
            r.column is None,
            r.kind == AggregationKind::Count,
            r.output@ == output@,
    {
        Aggregation { column: None, kind: AggregationKind::Count, output: output.to_owned() }
    }

    fn numeric(column: &str, kind: AggregationKind, output: &str) -> (r: Aggregation)
        ensures
            numeric_agg(r, column@, kind, output@),
    {
        Aggregation { column: Some(column.to_owned()), kind, output: output.to_owned() }
    }

    /// The sum of a numeric column in each group.
    pub fn sum(column: &str, output: &str) -> (r: Aggregation)
        ensures
            numeric_agg(r, column@, AggregationKind::Sum, output@),
    {
        Self::numeric(column, AggregationKind::Sum, output)
    }

    /// The mean of a numeric column in each group.
    pub fn mean(column: &str, output: &str) -> (r: Aggregation)
        ensures
            numeric_agg(r, column@, AggregationKind::Mean, output@),
    {
        Self::numeric(column, AggregationKind::Mean, output)
    }

    /// The least value of a numeric column in each group.
    pub fn min(column: &str, output: &str) -> (r: Aggregation)
        ensures
            numeric_agg(r, column@, AggregationKind::Min, output@),
    {
        Self::numeric(column, AggregationKind::Min, output)
    }

    /// The greatest value of a numeric column in each group.
    pub fn max(column: &str, output: &str) -> (r: Aggregation)
        ensures
            numeric_agg(r, column@, AggregationKind::Max, output@),
    {
        Self::numeric(column, AggregationKind::Max, output)
    }
}

fn same_key(a: &Key, b: &Key) -> (r: bool)
    ensures
        r == (key_model(*a) == key_model(*b)),
{
    match (a, b) {
        (Key::I64(x), Key::I64(y)) => *x == *y,
        (Key::Bool(x), Key::Bool(y)) => *x == *y,
        (Key::Text(x), Key::Text(y)) => x.eq(y),
        _ => false,
    }
}

/// A copy of a key.
fn copy_key(k: &Key) -> (r: Key)
    ensures
        key_model(r) == key_model(*k),
{
    match k {
        Key::I64(v) => Key::I64(*v),
        Key::Bool(b) => Key::Bool(*b),
        Key::Text(s) => Key::Text(s.clone()),
    }
}

/// Some row is in group `g`.
pub open spec fn group_seen(row_group: Seq<usize>, g: int) -> bool {
    exists|i: int| 0 <= i < row_group.len() && #[trigger] row_group[i] == g
}

/// `groups` lists the distinct keys of `keys` in the order they first occur,
/// and `row_group[i]` is the position in `groups` of row `i`'s key.
pub open spec fn grouping(keys: Seq<Key>, groups: Seq<Key>, row_group: Seq<usize>) -> bool {
    &&& row_group.len() == keys.len()
    &&& forall|i: int| 0 <= i < keys.len() ==> #[trigger] row_group[i] < groups.len()
    &&& forall|i: int| 0 <= i < keys.len() ==> key_model(groups[#[trigger] row_group[i] as int]) == key_model(keys[i])
    &&& forall|a: int, b: int| 0 <= a < b < groups.len() ==> key_model(#[trigger] groups[a]) != key_model(#[trigger] groups[b])
    &&& forall|g: int| 0 <= g < groups.len() ==> #[trigger] group_seen(row_group, g)
    &&& forall|i: int|
        0 <= i < keys.len() ==> #[trigger] row_group[i] == 0 || exists|k: int|
            0 <= k < i && row_group[k] + 1 == row_group[i]
}

/// Group the rows by key: the distinct keys in first-seen order, and each
/// row's group.
pub fn group_rows(keys: &[Key]) -> (r: (Vec<Key>, Vec<usize>))
    ensures
        grouping(keys@, r.0@, r.1@),
{
    let mut groups: Vec<Key> = Vec::new();
    let mut row_group: Vec<usize> = Vec::new();
    let mut i: usize = 0;
    while i < keys.len()
        invariant
            i <= keys.len(),
            groups.len() <= i,
            grouping(keys@.take(i as int), groups@, row_group@),
        decreases keys.len() - i,
    {
        let ghost t = keys@.take(i as int);
        let ghost t1 = keys@.take(i + 1);
        let ghost old_groups = groups@;
        let ghost old_rows = row_group@;
        let mut g: usize = 0;
        while g < groups.len() && !same_key(&groups[g], &keys[i])
            invariant
                g <= groups.len(),
                i < keys.len(),
                forall|h: int| 0 <= h < g ==> key_model(groups@[h]) != key_model(keys@[i as int]),
            decreases groups.len() - g,
        {
            g = g + 1;
        }
        if g == groups.len() {
            groups.push(copy_key(&keys[i]));
        }
        row_group.push(g);
        proof {
            assert(forall|k: int| 0 <= k < i ==> t1[k] == t[k]);
            assert(t1[i as int] == keys@[i as int]);
            assert(forall|k: int| 0 <= k < i ==> row_group@[k] == old_rows[k]);
            assert(row_group@[i as int] == g);
            assert forall|h: int| 0 <= h < old_groups.len() implies groups@[h] == old_groups[h] by {}
            if g > 0 {
                assert(group_seen(old_rows, g - 1));
                let w = choose|k: int| 0 <= k < old_rows.len() && #[trigger] old_rows[k] == (g - 1) as int;
                assert(row_group@[w] + 1 == row_group@[i as int]);
            }
            assert forall|gg: int| 0 <= gg < groups@.len() implies #[trigger] group_seen(row_group@, gg) by {
                if gg < old_groups.len() {
                    assert(group_seen(old_rows, gg));
                    let w = choose|k: int| 0 <= k < old_rows.len() && #[trigger] old_rows[k] == gg;
                    assert(row_group@[w] == gg);
                } else {
                    assert(row_group@[i as int] == gg);
                }
            }
            assert forall|k: int| 0 <= k < t1.len() implies #[trigger] row_group@[k] == 0 || exists|kk: int|
                0 <= kk < k && row_group@[kk] + 1 == row_group@[k] by {
                if k < i && old_rows[k] != 0 {
                    let w = choose|kk: int| 0 <= kk < k && old_rows[kk] + 1 == old_rows[k];
                    assert(row_group@[w] + 1 == row_group@[k]);
                }
            }
            assert forall|a: int, b: int| 0 <= a < b < groups@.len() implies key_model(#[trigger] groups@[a])
                != key_model(#[trigger] groups@[b]) by {
                if b == old_groups.len() {
                    assert(groups@[a] == old_groups[a]);
                } else {
                    assert(groups@[a] == old_groups[a]);
                    assert(groups@[b] == old_groups[b]);
                }
            }
            assert forall|k: int| 0 <= k < t1.len() implies key_model(groups@[#[trigger] row_group@[k] as int])
                == key_model(t1[k]) by {
                if k < i {
                    assert(groups@[old_rows[k] as int] == old_groups[old_rows[k] as int]);
                }
            }
        }
        i = i + 1;
    }
    assert(keys@.take(i as int) =~= keys@);
    (groups, row_group)
}

/// The number of rows in each of `ngroups` groups.
pub open spec fn group_size(row_group: Seq<usize>, g: int) -> nat
    decreases row_group.len(),
{
    if row_group.len() == 0 {
        0
    } else {
        group_size(row_group.drop_last(), g) + if row_group.last() == g {
            1nat
        } else {
            0nat
        }
    }
}

proof fn lemma_group_size_bound(row_group: Seq<usize>, g: int)
    ensures
        group_size(row_group, g) <= row_group.len(),
    decreases row_group.len(),
{
    if row_group.len() > 0 {
        lemma_group_size_bound(row_group.drop_last(), g);
    }
}

/// The row count of each group, as the count aggregation reports it.
pub fn group_counts(row_group: &[usize], ngroups: usize) -> (r: Vec<i64>)
    requires
        forall|i: int| 0 <= i < row_group.len() ==> #[trigger] row_group@[i] < ngroups,
        row_group.len() <= i64::MAX,
    ensures
        r.len() == ngroups,
        forall|g: int| 0 <= g < ngroups ==> #[trigger] r@[g] == group_size(row_group@, g),
{
    let mut out: Vec<i64> = Vec::new();
    while out.len() < ngroups
        invariant
            out.len() <= ngroups,
            forall|g: int| 0 <= g < out.len() ==> out@[g] == 0,
        decreases ngroups - out.len(),
    {
        out.push(0);
    }
    let mut i: usize = 0;
    while i < row_group.len()
        invariant
            i <= row_group.len(),
            row_group.len() <= i64::MAX,
            out.len() == ngroups,
            forall|k: int| 0 <= k < row_group.len() ==> #[trigger] row_group@[k] < ngroups,
            forall|g: int| 0 <= g < ngroups ==> #[trigger] out@[g] == group_size(row_group@.take(i as int), g),
        decreases row_group.len() - i,
    {
        let ghost t1 = row_group@.take(i + 1);
        assert(t1.drop_last() =~= row_group@.take(i as int));
        let g = row_group[i];
        proof {
            lemma_group_size_bound(row_group@.take(i as int), g as int);
        }
        let cur = out[g];
        out.set(g, cur + 1);
        i = i + 1;
    }
    assert(row_group@.take(i as int) =~= row_group@);
    out
}

/// Column `i` repeats an earlier name or differs in length from the first.
pub open spec fn column_fault(names: Seq<Seq<char>>, lengths: Seq<usize>, i: int) -> bool {
    (exists|j: int| 0 <= j < i && names[j] == names[i]) || lengths[i] != lengths[0]
}

/// What building a frame from columns with these names and lengths, in order,
/// gives: the row count, or the first column refused (a name seen before, or
/// a length other than the first column's), or no column at all.
pub open spec fn frame_rows_result(names: Seq<Seq<char>>, lengths: Seq<usize>, r: Result<usize, FrameError>) -> bool {
    let bad = first_from(1, names.len() as int, |i: int| column_fault(names, lengths, i));
    if names.len() == 0 {
        r == Err::<usize, FrameError>(FrameError::EmptyFrame)
    } else if bad is Some {
        let i = bad->0;
        if exists|j: int| 0 <= j < i && names[j] == names[i] {
            r matches Err(FrameError::DuplicateColumn(n)) && n@ == names[i]
        } else {
            r matches Err(FrameError::LengthMismatch { column: n, expected, actual }) && n@ == names[i] && expected
                == lengths[0] && actual == lengths[i]
        }
    } else {
        r == Ok::<usize, FrameError>(lengths[0])
    }
}

/// The texts of `names`.
pub open spec fn texts(names: Seq<String>) -> Seq<Seq<char>> {
    Seq::new(names.len(), |i: int| names[i]@)
}

/// The row count of a frame with columns of these names and lengths, or why
/// such a frame cannot be built.
pub fn frame_rows(names: &[String], lengths: &[usize]) -> (r: Result<usize, FrameError>)
    requires
        names.len() == lengths.len(),
    ensures
        frame_rows_result(texts(names@), lengths@, r),
{
    let ghost ns = texts(names@);
    let ghost p = |i: int| column_fault(ns, lengths@, i);
    proof {
        lemma_first_from(1, ns.len() as int, p);
    }
    if names.len() == 0 {
        return Err(FrameError::EmptyFrame);
    }
    let expected = lengths[0];
    let mut i: usize = 1;
    while i < names.len()
        invariant
            names.len() == lengths.len(),
            1 <= i <= names.len(),
            expected == lengths@[0],
            ns == texts(names@),
            p == (|i: int| column_fault(ns, lengths@, i)),
            first_from(1, ns.len() as int, p) == first_from(i as int, ns.len() as int, p),
        decreases names.len() - i,
    {
        let mut j: usize = 0;
        while j < i
            invariant
                i < names.len(),
                names.len() == lengths.len(),
                j <= i,
                ns == texts(names@),
                p == (|i: int| column_fault(ns, lengths@, i)),
                first_from(1, ns.len() as int, p) == first_from(i as int, ns.len() as int, p),
                forall|k: int| 0 <= k < j ==> ns[k] != ns[i as int],
            decreases i - j,
        {
            if names[j].eq(&names[i]) {
                assert(ns[j as int] == ns[i as int]);
                assert(column_fault(ns, lengths@, i as int));
                assert(p(i as int));
                assert(first_from(i as int, ns.len() as int, p) == Some(i as int));
                return Err(FrameError::DuplicateColumn(names[i].clone()));
            }
            j = j + 1;
        }
        if lengths[i] != expected {
            return Err(FrameError::LengthMismatch { column: names[i].clone(), expected, actual: lengths[i] });
        }
        i = i + 1;
    }
    Ok(expected)
}

/// The median of non-empty timing samples, as [`crate::timing::median_duration`]
/// computes it.
pub fn median_duration(samples: Vec<Duration>) -> (r: Duration)
    requires
        samples.len() > 0,
    ensures
        is_median_sample(samples@, r),
{
    timing::median_duration(samples)
}

} // verus!
