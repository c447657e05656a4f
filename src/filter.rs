use vstd::prelude::*;
use crate::table::{gather, gathered, pow10, rows_in, Column, ColumnData, Table, TableError, MAX_SCALE};
use crate::normalize::{all_distinct, names_distinct};

verus! {

/// Row `i` of `d` holds a number strictly greater than `threshold`.
pub open spec fn exceeds(d: ColumnData, i: int, threshold: int) -> bool {
    match d {
        ColumnData::Num(v, s) => v@[i] > threshold * pow10(s as nat),
        ColumnData::Text(_) => false,
    }
}

/// The indices among the first `n` rows whose value exceeds `threshold`, in order.
pub open spec fn kept_rows(d: ColumnData, threshold: int, n: nat) -> Seq<int>
    decreases n,
{
    if n == 0 {
        Seq::empty()
    } else {
        let before = kept_rows(d, threshold, (n - 1) as nat);
        if exceeds(d, n - 1, threshold) {
            before.push(n - 1)
        } else {
            before
        }
    }
}

/// What `select_greater` owes on a table with no missing column, no text
/// predicate column and no repeated projected name.
pub open spec fn is_selection(t: Table, column: Seq<char>, threshold: int, projection: Seq<Seq<char>>, out: Table) -> bool {
    &&& out.wf()
    &&& out.names() == projection
    &&& projection.len() > 0 ==> out.row_count() == kept_rows(t.column_of(column), threshold, t.row_count()).len()
    &&& forall|j: int| 0 <= j < projection.len() ==> gathered(
        t.column_of(projection[j]),
        (#[trigger] out.columns@[j]).data,
        kept_rows(t.column_of(column), threshold, t.row_count()),
    )
}

/// The conditions under which `select_greater` succeeds.
pub open spec fn selection_succeeds(t: Table, column: Seq<char>, projection: Seq<Seq<char>>) -> bool {
    t.has_column(column) && t.column_of(column) is Num && all_present(t, projection) && all_distinct(projection)
}

pub open spec fn all_present(t: Table, projection: Seq<Seq<char>>) -> bool {
    forall|j: int| 0 <= j < projection.len() ==> t.has_column(#[trigger] projection[j])
}

proof fn lemma_pow10_grows(a: nat, b: nat)
    requires
        a <= b,
    ensures
        1 <= pow10(a) <= pow10(b),
    decreases b,
{
    if a < b {
        lemma_pow10_grows(a, (b - 1) as nat);
    } else if b > 0 {
        lemma_pow10_grows((a - 1) as nat, (b - 1) as nat);
    }
}

/// `threshold * 10^scale`, exactly.
fn scaled(threshold: i64, scale: u32) -> (r: i128)
    requires
        scale <= MAX_SCALE,
    ensures
        r == threshold * pow10(scale as nat),
{
    proof {
        reveal_with_fuel(pow10, 19);
        lemma_pow10_grows(scale as nat, 18);
    }
    let mut p: i128 = 1;
    let mut k: u32 = 0;
    while k < scale
        invariant
            k <= scale <= 18,
            p == pow10(k as nat),
            pow10(scale as nat) <= 1000000000000000000,
        decreases scale - k,
    {
        proof {
            lemma_pow10_grows((k + 1) as nat, scale as nat);
        }
        p = p * 10;
        k = k + 1;
    }
    let ghost g = pow10(scale as nat);
    assert(-9223372036854775808 * 1000000000000000000 <= threshold * g <= 9223372036854775807
        * 1000000000000000000) by (nonlinear_arith)
        requires
            1 <= g <= 1000000000000000000,
            -9223372036854775808 <= threshold <= 9223372036854775807,
    ;
    (threshold as i128) * p
}

/// The indices of the rows of a numeric column whose value exceeds `threshold`.
fn matching_rows(units: &Vec<i64>, scale: u32, threshold: i64) -> (r: Vec<usize>)
    requires
        scale <= MAX_SCALE,
    ensures
        r@.map_values(|i: usize| i as int) == kept_rows(
            ColumnData::Num(*units, scale),
            threshold as int,
            units@.len(),
        ),
{
    let ghost d = ColumnData::Num(*units, scale);
    let bound = scaled(threshold, scale);
    let mut r: Vec<usize> = Vec::new();
    let mut i: usize = 0;
    while i < units.len()
        invariant
            i <= units@.len(),
            d == ColumnData::Num(*units, scale),
            bound == threshold * pow10(scale as nat),
            r@.map_values(|i: usize| i as int) == kept_rows(d, threshold as int, i as nat),
        decreases units@.len() - i,
    {
        if (units[i] as i128) > bound {
            r.push(i);
        }
        assert(r@.map_values(|i: usize| i as int) =~= kept_rows(d, threshold as int, (i + 1) as nat));
        i = i + 1;
    }
    r
}

/// The kept rows are exactly the rows whose value exceeds the threshold, each
/// once and in their original order, so there are never more than the input has.
pub proof fn kept_rows_are_exactly_the_matching_rows(d: ColumnData, threshold: int, n: nat)
    ensures
        kept_rows(d, threshold, n).len() <= n,
        rows_in(kept_rows(d, threshold, n), n),
        forall|k: int|
            0 <= k < kept_rows(d, threshold, n).len() ==> exceeds(
                d,
                #[trigger] kept_rows(d, threshold, n)[k],
                threshold,
            ),
        forall|i: int|
            0 <= i < n && exceeds(d, i, threshold) ==> #[trigger] kept_rows(
                d,
                threshold,
                n,
            ).contains(i),
        forall|a: int, b: int|
            0 <= a < b < kept_rows(d, threshold, n).len() ==> kept_rows(d, threshold, n)[a]
                < kept_rows(d, threshold, n)[b],
    decreases n,
{
    if n > 0 {
        let m = (n - 1) as nat;
        kept_rows_are_exactly_the_matching_rows(d, threshold, m);
        let before = kept_rows(d, threshold, m);
        let now = kept_rows(d, threshold, n);
        assert forall|i: int| 0 <= i < n && exceeds(d, i, threshold) implies #[trigger] now.contains(i) by {
            if i < m {
                assert(before.contains(i));
                let k = choose|k: int| 0 <= k < before.len() && before[k] == i;
                assert(now[k] == i);
            } else {
                assert(now[now.len() - 1] == i);
            }
        }
    }
}

/// The rows whose `column` value is strictly greater than `threshold`, in
/// input order, restricted to the `projection` columns in the order given.
pub fn select_greater(t: &Table, column: &String, threshold: i64, projection: &Vec<String>) -> (r: Result<Table, TableError>)
    requires
        t.wf(),
    ensures
        !t.has_column(column@) ==> r == Err::<Table, TableError>(TableError::ColumnNotFound),
        t.has_column(column@) && t.column_of(column@) is Text ==> r == Err::<Table, TableError>(
            TableError::TypeMismatch),
        t.has_column(column@) && t.column_of(column@) is Num && !all_present(
            *t,
            projection@.map_values(|s: String| s@),
        ) ==> r == Err::<Table, TableError>(TableError::ColumnNotFound),
        t.has_column(column@) && t.column_of(column@) is Num && all_present(
            *t,
            projection@.map_values(|s: String| s@),
        ) && !all_distinct(projection@.map_values(|s: String| s@)) ==> r == Err::<Table, TableError>(
            TableError::DuplicateColumn),
        r is Ok <==> t.has_column(column@) && t.column_of(column@) is Num && all_present(
            *t,
            projection@.map_values(|s: String| s@),
        ) && all_distinct(projection@.map_values(|s: String| s@)),
        r matches Ok(out) ==> is_selection(
            *t,
            column@,
            threshold as int,
            projection@.map_values(|s: String| s@),
            out,
        ),
{
    let ghost proj = projection@.map_values(|s: String| s@);
    let p = match t.column_index(column) {
        Some(p) => p,
        None => {
            return Err(TableError::ColumnNotFound);
        },
    };
    proof {
        t.lemma_column_of(column@, p as int);
    }
    let rows = match &t.columns[p].data {
        ColumnData::Num(units, scale) => matching_rows(units, *scale, threshold),
        ColumnData::Text(_) => {
            return Err(TableError::TypeMismatch);
        },
    };
    let ghost kept = kept_rows(t.column_of(column@), threshold as int, t.row_count());
    proof {
        kept_rows_are_exactly_the_matching_rows(t.column_of(column@), threshold as int, t.row_count());
    }
    let mut idx: Vec<usize> = Vec::new();
    let mut j: usize = 0;
    while j < projection.len()
        invariant
            t.wf(),
            t.has_column(column@),
            t.column_of(column@) is Num,
            j <= projection@.len(),
            proj == projection@.map_values(|s: String| s@),
            idx@.len() == j,
            forall|k: int| 0 <= k < j ==> t.has_column_at(proj[k], #[trigger] idx@[k] as int),
            forall|k: int| 0 <= k < j ==> t.has_column(#[trigger] proj[k]),
        decreases projection@.len() - j,
    {
        match t.column_index(&projection[j]) {
            Some(c) => idx.push(c),
            None => {
                assert(!t.has_column(proj[j as int]));
                return Err(TableError::ColumnNotFound);
            },
        }
        j = j + 1;
    }
    if !names_distinct(projection) {
        return Err(TableError::DuplicateColumn);
    }
    let mut out: Vec<Column> = Vec::new();
    let mut j: usize = 0;
    while j < projection.len()
        invariant
            t.wf(),
            j <= projection@.len(),
            proj == projection@.map_values(|s: String| s@),
            idx@.len() == projection@.len(),
            forall|k: int| 0 <= k < idx@.len() ==> t.has_column_at(proj[k], #[trigger] idx@[k] as int),
            rows@.map_values(|i: usize| i as int) == kept,
            rows_in(kept, t.row_count()),
            out@.len() == j,
            forall|k: int| 0 <= k < j ==> (#[trigger] out@[k]).name@ == proj[k],
            forall|k: int| 0 <= k < j ==> gathered(t.column_of(proj[k]), (#[trigger] out@[k]).data, kept),
            forall|k: int| 0 <= k < j ==> crate::table::data_len((#[trigger] out@[k]).data) == kept.len(),
            forall|k: int| 0 <= k < j ==> crate::table::data_ok((#[trigger] out@[k]).data),
        decreases projection@.len() - j,
    {
        let c = idx[j];
        proof {
            t.lemma_column_of(proj[j as int], c as int);
        }
        let data = gather(&t.columns[c].data, &rows);
        out.push(Column { name: projection[j].clone(), data });
        j = j + 1;
    }
    let res = Table { columns: out };
    assert(res.names() =~= proj);
    assert forall|a: int, b: int|
        0 <= a < res.columns@.len() && 0 <= b < res.columns@.len() && a != b
            implies #[trigger] res.columns@[a].name@ != #[trigger] res.columns@[b].name@ by {
        assert(proj[a] != proj[b]);
    }
    assert(res.wf());
    Ok(res)
}

} // verus!
