use vstd::prelude::*;
use crate::table::{gather, gathered, rows_in, same_cell, Column, ColumnData, Table, TableError};
use crate::normalize::{all_distinct, names_distinct};
use crate::filter::all_present;

verus! {

/// Rows `i` and `j` hold equal values in every key column.
pub open spec fn same_group(t: Table, keys: Seq<Seq<char>>, i: int, j: int) -> bool {
    forall|k: int| 0 <= k < keys.len() ==> same_cell(t.column_of(#[trigger] keys[k]), i, j)
}

/// The first row of each group among the first `n` rows, in order of first occurrence.
pub open spec fn group_leaders(t: Table, keys: Seq<Seq<char>>, n: nat) -> Seq<int>
    decreases n,
{
    if n == 0 {
        Seq::empty()
    } else {
        let before = group_leaders(t, keys, (n - 1) as nat);
        if exists|g: int| 0 <= g < before.len() && same_group(t, keys, before[g], n - 1) {
            before
        } else {
            before.push(n - 1)
        }
    }
}

/// The number held in row `i` of a numeric column.
pub open spec fn units_at(d: ColumnData, i: int) -> int {
    match d {
        ColumnData::Num(v, _) => v@[i] as int,
        ColumnData::Text(_) => 0,
    }
}

/// The sum of `value` over the rows among the first `n` that share row `leader`'s key.
pub open spec fn group_total(t: Table, keys: Seq<Seq<char>>, value: ColumnData, leader: int, n: nat) -> int
    decreases n,
{
    if n == 0 {
        0
    } else {
        group_total(t, keys, value, leader, (n - 1) as nat) + if same_group(t, keys, leader, n - 1) {
            units_at(value, n - 1)
        } else {
            0
        }
    }
}

pub open spec fn fits_i64(x: int) -> bool {
    i64::MIN <= x <= i64::MAX
}

/// Every group's sum fits in 64 bits.
pub open spec fn totals_fit(t: Table, keys: Seq<Seq<char>>, value: Seq<char>) -> bool {
    forall|g: int|
        0 <= g < group_leaders(t, keys, t.row_count()).len() ==> fits_i64(
            group_total(t, keys, t.column_of(value), #[trigger] group_leaders(t, keys, t.row_count())[g], t.row_count()),
        )
}

/// The conditions under which `group_sum` succeeds.
pub open spec fn grouping_succeeds(t: Table, keys: Seq<Seq<char>>, value: Seq<char>) -> bool {
    all_present(t, keys) && t.has_column(value) && t.column_of(value) is Num && all_distinct(keys.push(value))
        && totals_fit(t, keys, value)
}

/// What `group_sum` owes when it succeeds: the key columns at each group's first
/// row, then the group's sum, in order of first occurrence.
pub open spec fn is_grouping(t: Table, keys: Seq<Seq<char>>, value: Seq<char>, out: Table) -> bool {
    let leaders = group_leaders(t, keys, t.row_count());
    &&& out.wf()
    &&& out.names() == keys.push(value)
    &&& forall|k: int| 0 <= k < keys.len() ==> gathered(t.column_of(keys[k]), (#[trigger] out.columns@[k]).data, leaders)
    &&& match (t.column_of(value), out.columns@[keys.len() as int].data) {
        (ColumnData::Num(_, s), ColumnData::Num(w, u)) => s == u && w@.len() == leaders.len()
            && forall|g: int| 0 <= g < leaders.len() ==> w@[g] == group_total(t, keys, t.column_of(value), #[trigger] leaders[g], t.row_count()),
        _ => false,
    }
}

proof fn lemma_same_group_equiv(t: Table, keys: Seq<Seq<char>>)
    ensures
        forall|i: int| #[trigger] same_group(t, keys, i, i),
        forall|i: int, j: int| same_group(t, keys, i, j) ==> #[trigger] same_group(t, keys, j, i),
        forall|i: int, j: int, m: int|
            #[trigger] same_group(t, keys, i, j) && #[trigger] same_group(t, keys, j, m) ==> same_group(t, keys, i, m),
{
    assert forall|i: int, j: int, m: int|
        #[trigger] same_group(t, keys, i, j) && #[trigger] same_group(t, keys, j, m) implies same_group(t, keys, i, m) by {
        assert forall|k: int| 0 <= k < keys.len() implies same_cell(t.column_of(#[trigger] keys[k]), i, m) by {
            assert(same_cell(t.column_of(keys[k]), i, j));
            assert(same_cell(t.column_of(keys[k]), j, m));
        }
    }
}

/// The leaders of the first `n` rows: distinct rows below `n`, in increasing order,
/// no two sharing a key, and every row below `n` shares the key of one of them.
proof fn lemma_leaders(t: Table, keys: Seq<Seq<char>>, n: nat)
    ensures
        rows_in(group_leaders(t, keys, n), n),
        forall|a: int, b: int|
            0 <= a < b < group_leaders(t, keys, n).len() ==> group_leaders(t, keys, n)[a] < group_leaders(t, keys, n)[b],
        forall|a: int, b: int|
            0 <= a < group_leaders(t, keys, n).len() && 0 <= b < group_leaders(t, keys, n).len() && a != b
                ==> !same_group(t, keys, #[trigger] group_leaders(t, keys, n)[a], #[trigger] group_leaders(t, keys, n)[b]),
        forall|i: int|
            0 <= i < n ==> exists|g: int|
                0 <= g < group_leaders(t, keys, n).len() && same_group(t, keys, group_leaders(t, keys, n)[g], #[trigger] (i + 0)),
    decreases n,
{
    lemma_same_group_equiv(t, keys);
    if n > 0 {
        let m = (n - 1) as nat;
        lemma_leaders(t, keys, m);
        let before = group_leaders(t, keys, m);
        let now = group_leaders(t, keys, n);
        if exists|g: int| 0 <= g < before.len() && same_group(t, keys, before[g], n - 1) {
            assert forall|i: int| 0 <= i < n implies exists|g: int|
                0 <= g < now.len() && same_group(t, keys, now[g], #[trigger] (i + 0)) by {
                if i < m {
                    assert(exists|g: int| 0 <= g < before.len() && same_group(t, keys, before[g], #[trigger] (i + 0)));
                }
            }
        } else {
            assert forall|a: int, b: int|
                0 <= a < now.len() && 0 <= b < now.len() && a != b
                    implies !same_group(t, keys, #[trigger] now[a], #[trigger] now[b]) by {
                if a == now.len() - 1 {
                    assert(!same_group(t, keys, before[b], n - 1));
                } else if b == now.len() - 1 {
                    assert(!same_group(t, keys, before[a], n - 1));
                }
            }
            assert forall|i: int| 0 <= i < n implies exists|g: int|
                0 <= g < now.len() && same_group(t, keys, now[g], #[trigger] (i + 0)) by {
                if i < m {
                    let g = choose|g: int| 0 <= g < before.len() && same_group(t, keys, before[g], #[trigger] (i + 0));
                    assert(now[g] == before[g]);
                } else {
                    assert(same_group(t, keys, now[now.len() - 1], i + 0));
                }
            }
        }
    }
}

proof fn lemma_total_unmatched(t: Table, keys: Seq<Seq<char>>, value: ColumnData, leader: int, n: nat)
    requires
        forall|j: int| 0 <= j < n ==> !same_group(t, keys, leader, j),
    ensures
        group_total(t, keys, value, leader, n) == 0,
    decreases n,
{
    if n > 0 {
        lemma_total_unmatched(t, keys, value, leader, (n - 1) as nat);
    }
}

/// The key columns are found at `kc`.
pub open spec fn keys_at(t: Table, keys: Seq<Seq<char>>, kc: Seq<usize>) -> bool {
    kc.len() == keys.len() && forall|k: int| 0 <= k < kc.len() ==> t.has_column_at(keys[k], #[trigger] kc[k] as int)
}

/// Whether rows `i` and `j` agree on every key column.
fn rows_agree(t: &Table, kc: &Vec<usize>, keys: Ghost<Seq<Seq<char>>>, i: usize, j: usize) -> (r: bool)
    requires
        t.wf(),
        keys_at(*t, keys@, kc@),
        i < t.row_count(),
        j < t.row_count(),
    ensures
        r == same_group(*t, keys@, i as int, j as int),
{
    let mut k: usize = 0;
    while k < kc.len()
        invariant
            t.wf(),
            keys_at(*t, keys@, kc@),
            i < t.row_count(),
            j < t.row_count(),
            k <= kc@.len(),
            forall|m: int| 0 <= m < k ==> same_cell(t.column_of(#[trigger] keys@[m]), i as int, j as int),
        decreases kc@.len() - k,
    {
        let c = kc[k];
        proof {
            t.lemma_column_of(keys@[k as int], c as int);
        }
        let eq = match &t.columns[c].data {
            ColumnData::Text(v) => v[i] == v[j],
            ColumnData::Num(v, _) => v[i] == v[j],
        };
        if !eq {
            return false;
        }
        k = k + 1;
    }
    true
}

/// The group leaders and the exact sum of `units` over each group.
fn partition(t: &Table, kc: &Vec<usize>, keys: Ghost<Seq<Seq<char>>>, units: &Vec<i64>, value: Ghost<ColumnData>) -> (r: (Vec<usize>, Vec<i128>))
    requires
        t.wf(),
        keys_at(*t, keys@, kc@),
        units@.len() == t.row_count(),
        forall|i: int| 0 <= i < units@.len() ==> units_at(value@, i) == units@[i],
    ensures
        r.0@.map_values(|i: usize| i as int) == group_leaders(*t, keys@, t.row_count()),
        r.1@.len() == r.0@.len(),
        forall|g: int| 0 <= g < r.1@.len() ==> r.1@[g] == group_total(*t, keys@, value@, #[trigger] r.0@[g] as int, t.row_count()),
{
    let mut leaders: Vec<usize> = Vec::new();
    let mut sums: Vec<i128> = Vec::new();
    let mut i: usize = 0;
    while i < units.len()
        invariant
            t.wf(),
            keys_at(*t, keys@, kc@),
            units@.len() == t.row_count(),
            forall|i: int| 0 <= i < units@.len() ==> units_at(value@, i) == units@[i],
            i <= units@.len(),
            leaders@.map_values(|i: usize| i as int) == group_leaders(*t, keys@, i as nat),
            sums@.len() == leaders@.len(),
            forall|g: int| 0 <= g < sums@.len() ==> #[trigger] sums@[g] == group_total(*t, keys@, value@, leaders@[g] as int, i as nat),
            forall|g: int| 0 <= g < sums@.len() ==> -(i * 9223372036854775808) <= #[trigger] sums@[g] <= i * 9223372036854775808,
        decreases units@.len() - i,
    {
        let ghost before = group_leaders(*t, keys@, i as nat);
        proof {
            lemma_leaders(*t, keys@, i as nat);
            lemma_same_group_equiv(*t, keys@);
        }
        let mut g: usize = 0;
        let mut found = false;
        while g < leaders.len()
            invariant
                t.wf(),
                keys_at(*t, keys@, kc@),
                i < units@.len() == t.row_count(),
                leaders@.map_values(|i: usize| i as int) == before,
                rows_in(before, i as nat),
                g <= leaders@.len(),
                !found ==> forall|h: int| 0 <= h < g ==> !same_group(*t, keys@, before[h], i as int),
                found ==> g < leaders@.len() && same_group(*t, keys@, before[g as int], i as int),
            ensures
                !found ==> forall|h: int| 0 <= h < leaders@.len() ==> !same_group(*t, keys@, before[h], i as int),
                found ==> g < leaders@.len() && same_group(*t, keys@, before[g as int], i as int),
            decreases leaders@.len() - g + if found { 0int } else { 1int },
        {
            assert(before[g as int] == leaders@[g as int] as int);
            if rows_agree(t, kc, keys, leaders[g], i) {
                found = true;
                break;
            }
            g = g + 1;
        }
        let ghost old_sums = sums@;
        if found {
            let cur = sums[g];
            sums.set(g, cur + units[i] as i128);
            proof {
                assert forall|h: int| 0 <= h < sums@.len() implies #[trigger] sums@[h] == group_total(*t, keys@, value@, leaders@[h] as int, (i + 1) as nat) by {
                    assert(before[h] == leaders@[h] as int);
                    if h != g {
                        assert(!same_group(*t, keys@, before[h], before[g as int]));
                    }
                }
            }
        } else {
            proof {
                assert forall|j: int| 0 <= j < i implies !same_group(*t, keys@, i as int, j) by {
                    let h = choose|h: int| 0 <= h < before.len() && same_group(*t, keys@, before[h], #[trigger] (j + 0));
                    if same_group(*t, keys@, i as int, j) {
                        assert(same_group(*t, keys@, j, i as int));
                        assert(same_group(*t, keys@, before[h], i as int));
                        assert(false);
                    }
                }
                lemma_total_unmatched(*t, keys@, value@, i as int, i as nat);
                assert forall|h: int| 0 <= h < sums@.len() implies !same_group(*t, keys@, leaders@[h] as int, i as int) by {
                    assert(before[h] == leaders@[h] as int);
                }
            }
            leaders.push(i);
            sums.push(units[i] as i128);
            assert(leaders@.map_values(|i: usize| i as int) =~= before.push(i as int));
        }
        i = i + 1;
    }
    (leaders, sums)
}

/// The sum of the weights `w` of the rows among the first `n` that share row
/// `leader`'s key.
pub open spec fn weighted_total(t: Table, keys: Seq<Seq<char>>, w: spec_fn(int) -> int, leader: int, n: nat) -> int
    decreases n,
{
    if n == 0 {
        0
    } else {
        weighted_total(t, keys, w, leader, (n - 1) as nat) + if same_group(t, keys, leader, n - 1) {
            w(n - 1)
        } else {
            0
        }
    }
}

/// The sum, over the groups led by `leaders`, of their weighted totals.
pub open spec fn over_groups(t: Table, keys: Seq<Seq<char>>, w: spec_fn(int) -> int, leaders: Seq<int>, n: nat) -> int
    decreases leaders.len(),
{
    if leaders.len() == 0 {
        0
    } else {
        over_groups(t, keys, w, leaders.drop_last(), n) + weighted_total(t, keys, w, leaders.last(), n)
    }
}

/// The sum of the weights of the first `n` rows.
pub open spec fn over_rows(w: spec_fn(int) -> int, n: nat) -> int
    decreases n,
{
    if n == 0 {
        0
    } else {
        over_rows(w, (n - 1) as nat) + w(n - 1)
    }
}

proof fn lemma_weighted_unmatched(t: Table, keys: Seq<Seq<char>>, w: spec_fn(int) -> int, leader: int, n: nat)
    requires
        forall|j: int| 0 <= j < n ==> !same_group(t, keys, leader, j),
    ensures
        weighted_total(t, keys, w, leader, n) == 0,
    decreases n,
{
    if n > 0 {
        lemma_weighted_unmatched(t, keys, w, leader, (n - 1) as nat);
    }
}

proof fn lemma_group_total_weighted(t: Table, keys: Seq<Seq<char>>, value: ColumnData, leader: int, n: nat)
    ensures
        group_total(t, keys, value, leader, n) == weighted_total(t, keys, |i: int| units_at(value, i), leader, n),
    decreases n,
{
    if n > 0 {
        lemma_group_total_weighted(t, keys, value, leader, (n - 1) as nat);
    }
}

/// Adding row `m` adds its weight to the one group that it joins, if any.
proof fn lemma_over_groups_step(t: Table, keys: Seq<Seq<char>>, w: spec_fn(int) -> int, leaders: Seq<int>, m: nat)
    requires
        forall|a: int, b: int|
            0 <= a < leaders.len() && 0 <= b < leaders.len() && same_group(t, keys, leaders[a], m as int)
                && same_group(t, keys, leaders[b], m as int) ==> a == b,
    ensures
        over_groups(t, keys, w, leaders, m + 1) == over_groups(t, keys, w, leaders, m) + if exists|g: int|
            0 <= g < leaders.len() && same_group(t, keys, leaders[g], m as int) {
            w(m as int)
        } else {
            0
        },
    decreases leaders.len(),
{
    if leaders.len() > 0 {
        let init = leaders.drop_last();
        lemma_over_groups_step(t, keys, w, init, m);
        if exists|g: int| 0 <= g < init.len() && same_group(t, keys, init[g], m as int) {
            let g = choose|g: int| 0 <= g < init.len() && same_group(t, keys, init[g], m as int);
            assert(same_group(t, keys, leaders[g], m as int));
            if same_group(t, keys, leaders.last(), m as int) {
                assert(g == leaders.len() - 1);
            }
        } else if exists|g: int| 0 <= g < leaders.len() && same_group(t, keys, leaders[g], m as int) {
            let g = choose|g: int| 0 <= g < leaders.len() && same_group(t, keys, leaders[g], m as int);
            if g < init.len() {
                assert(same_group(t, keys, init[g], m as int));
            }
        }
    }
}

proof fn lemma_partition_sums(t: Table, keys: Seq<Seq<char>>, w: spec_fn(int) -> int, n: nat)
    ensures
        over_groups(t, keys, w, group_leaders(t, keys, n), n) == over_rows(w, n),
    decreases n,
{
    if n > 0 {
        let m = (n - 1) as nat;
        lemma_partition_sums(t, keys, w, m);
        lemma_leaders(t, keys, m);
        lemma_same_group_equiv(t, keys);
        let before = group_leaders(t, keys, m);
        assert forall|a: int, b: int|
            0 <= a < before.len() && 0 <= b < before.len() && same_group(t, keys, before[a], m as int)
                && same_group(t, keys, before[b], m as int) implies a == b by {
            if a != b {
                assert(same_group(t, keys, m as int, before[b]));
                assert(same_group(t, keys, before[a], before[b]));
            }
        }
        lemma_over_groups_step(t, keys, w, before, m);
        if !exists|g: int| 0 <= g < before.len() && same_group(t, keys, before[g], m as int) {
            let now = group_leaders(t, keys, n);
            assert(now.drop_last() =~= before);
            assert forall|j: int| 0 <= j < m implies !same_group(t, keys, m as int, j) by {
                let h = choose|h: int| 0 <= h < before.len() && same_group(t, keys, before[h], #[trigger] (j + 0));
                if same_group(t, keys, m as int, j) {
                    assert(same_group(t, keys, j, m as int));
                    assert(same_group(t, keys, before[h], m as int));
                }
            }
            lemma_weighted_unmatched(t, keys, w, m as int, m);
        }
    }
}

/// Grouping partitions the rows: each row joins exactly one group, the group
/// sizes add up to the row count, and the group sums add up to the sum of the
/// whole value column.
pub proof fn groups_partition_rows(t: Table, keys: Seq<Seq<char>>, value: Seq<char>)
    ensures
        forall|i: int|
            0 <= i < t.row_count() ==> exists|g: int|
                0 <= g < group_leaders(t, keys, t.row_count()).len() && same_group(
                    t,
                    keys,
                    group_leaders(t, keys, t.row_count())[g],
                    #[trigger] (i + 0),
                ),
        forall|i: int, a: int, b: int|
            0 <= i < t.row_count() && 0 <= a < group_leaders(t, keys, t.row_count()).len() && 0 <= b
                < group_leaders(t, keys, t.row_count()).len() && #[trigger] same_group(
                t,
                keys,
                group_leaders(t, keys, t.row_count())[a],
                i,
            ) && #[trigger] same_group(t, keys, group_leaders(t, keys, t.row_count())[b], i) ==> a == b,
        over_groups(t, keys, |i: int| 1, group_leaders(t, keys, t.row_count()), t.row_count())
            == t.row_count(),
        over_groups(
            t,
            keys,
            |i: int| units_at(t.column_of(value), i),
            group_leaders(t, keys, t.row_count()),
            t.row_count(),
        ) == over_rows(|i: int| units_at(t.column_of(value), i), t.row_count()),
        forall|leader: int|
            #[trigger] group_total(t, keys, t.column_of(value), leader, t.row_count()) == weighted_total(
                t,
                keys,
                |i: int| units_at(t.column_of(value), i),
                leader,
                t.row_count(),
            ),
{
    let n = t.row_count();
    let lead = group_leaders(t, keys, n);
    lemma_leaders(t, keys, n);
    lemma_same_group_equiv(t, keys);
    assert forall|i: int, a: int, b: int|
        0 <= i < n && 0 <= a < lead.len() && 0 <= b < lead.len() && #[trigger] same_group(t, keys, lead[a], i)
            && #[trigger] same_group(t, keys, lead[b], i) implies a == b by {
        if a != b {
            assert(same_group(t, keys, i, lead[b]));
            assert(same_group(t, keys, lead[a], lead[b]));
        }
    }
    lemma_partition_sums(t, keys, |i: int| 1, n);
    lemma_partition_sums(t, keys, |i: int| units_at(t.column_of(value), i), n);
    lemma_rows_count(n);
    assert forall|leader: int|
        #[trigger] group_total(t, keys, t.column_of(value), leader, n) == weighted_total(
            t,
            keys,
            |i: int| units_at(t.column_of(value), i),
            leader,
            n,
        ) by {
        lemma_group_total_weighted(t, keys, t.column_of(value), leader, n);
    }
}

proof fn lemma_rows_count(n: nat)
    ensures
        over_rows(|i: int| 1, n) == n,
    decreases n,
{
    if n > 0 {
        lemma_rows_count((n - 1) as nat);
    }
}

/// One row per distinct combination of the `keys` columns' values, in order of
/// first occurrence: those values, then the sum of the `value` column over the
/// rows that share them. A numeric column's scale carries over to the sums.
pub fn group_sum(t: &Table, keys: &Vec<String>, value: &String) -> (r: Result<Table, TableError>)
    requires
        t.wf(),
    ensures
        !all_present(*t, keys@.map_values(|s: String| s@)) ==> r == Err::<Table, TableError>(
            TableError::ColumnNotFound),
        all_present(*t, keys@.map_values(|s: String| s@)) && !t.has_column(value@) ==> r == Err::<Table, TableError>(
            TableError::ColumnNotFound),
        all_present(*t, keys@.map_values(|s: String| s@)) && t.has_column(value@) && t.column_of(value@) is Text
            ==> r == Err::<Table, TableError>(TableError::TypeMismatch),
        all_present(*t, keys@.map_values(|s: String| s@)) && t.has_column(value@) && t.column_of(value@) is Num
            && !all_distinct(keys@.map_values(|s: String| s@).push(value@)) ==> r == Err::<Table, TableError>(
            TableError::DuplicateColumn),
        all_present(*t, keys@.map_values(|s: String| s@)) && t.has_column(value@) && t.column_of(value@) is Num
            && all_distinct(keys@.map_values(|s: String| s@).push(value@)) && !totals_fit(
            *t,
            keys@.map_values(|s: String| s@),
            value@,
        ) ==> r == Err::<Table, TableError>(TableError::SumOverflow),
        r is Ok <==> all_present(*t, keys@.map_values(|s: String| s@)) && t.has_column(value@) && t.column_of(
            value@,
        ) is Num && all_distinct(keys@.map_values(|s: String| s@).push(value@)) && totals_fit(
            *t,
            keys@.map_values(|s: String| s@),
            value@,
        ),
        r matches Ok(out) ==> is_grouping(*t, keys@.map_values(|s: String| s@), value@, out),
{
    let ghost ks = keys@.map_values(|s: String| s@);
    let mut kc: Vec<usize> = Vec::new();
    let mut k: usize = 0;
    while k < keys.len()
        invariant
            t.wf(),
            k <= keys@.len(),
            ks == keys@.map_values(|s: String| s@),
            kc@.len() == k,
            forall|m: int| 0 <= m < k ==> t.has_column_at(ks[m], #[trigger] kc@[m] as int),
            forall|m: int| 0 <= m < k ==> t.has_column(#[trigger] ks[m]),
        decreases keys@.len() - k,
    {
        match t.column_index(&keys[k]) {
            Some(c) => kc.push(c),
            None => {
                assert(!t.has_column(ks[k as int]));
                return Err(TableError::ColumnNotFound);
            },
        }
        k = k + 1;
    }
    let v = match t.column_index(value) {
        Some(v) => v,
        None => {
            return Err(TableError::ColumnNotFound);
        },
    };
    proof {
        t.lemma_column_of(value@, v as int);
    }
    let (units, scale) = match &t.columns[v].data {
        ColumnData::Num(units, scale) => (units, *scale),
        ColumnData::Text(_) => {
            return Err(TableError::TypeMismatch);
        },
    };
    let mut names: Vec<String> = Vec::new();
    let mut k: usize = 0;
    while k < keys.len()
        invariant
            k <= keys@.len(),
            names@.len() == k,
            forall|m: int| 0 <= m < k ==> names@[m]@ == keys@[m]@,
        decreases keys@.len() - k,
    {
        names.push(keys[k].clone());
        k = k + 1;
    }
    names.push(value.clone());
    assert(names@.map_values(|s: String| s@) =~= ks.push(value@));
    if !names_distinct(&names) {
        return Err(TableError::DuplicateColumn);
    }
    let ghost vd = t.column_of(value@);
    let ghost n = t.row_count();
    let (leaders, sums) = partition(t, &kc, Ghost(ks), units, Ghost(vd));
    proof {
        lemma_leaders(*t, ks, n);
    }
    let ghost lead = group_leaders(*t, ks, n);
    let mut totals: Vec<i64> = Vec::new();
    let mut g: usize = 0;
    while g < sums.len()
        invariant
            ks == keys@.map_values(|s: String| s@),
            all_present(*t, ks),
            t.has_column(value@),
            n == t.row_count(),
            vd == t.column_of(value@),
            vd is Num,
            all_distinct(ks.push(value@)),
            lead == group_leaders(*t, ks, n),
            g <= sums@.len() == leaders@.len(),
            leaders@.map_values(|i: usize| i as int) == lead,
            forall|h: int| 0 <= h < sums@.len() ==> sums@[h] == group_total(*t, ks, vd, #[trigger] leaders@[h] as int, n),
            forall|h: int| 0 <= h < g ==> fits_i64(group_total(*t, ks, vd, #[trigger] lead[h], n)),
            totals@.len() == g,
            forall|h: int| 0 <= h < g ==> totals@[h] == group_total(*t, ks, vd, #[trigger] lead[h], n),
        decreases sums@.len() - g,
    {
        assert(lead.len() == leaders@.len());
        assert(lead[g as int] == leaders@[g as int] as int);
        let x = sums[g];
        assert(x == group_total(*t, ks, vd, leaders@[g as int] as int, n));
        if x < i64::MIN as i128 || x > i64::MAX as i128 {
            return Err(TableError::SumOverflow);
        }
        totals.push(x as i64);
        g = g + 1;
    }
    let mut out: Vec<Column> = Vec::new();
    let mut k: usize = 0;
    while k < kc.len()
        invariant
            t.wf(),
            keys_at(*t, ks, kc@),
            ks == keys@.map_values(|s: String| s@),
            leaders@.map_values(|i: usize| i as int) == lead,
            rows_in(lead, n),
            n == t.row_count(),
            k <= kc@.len(),
            out@.len() == k,
            forall|m: int| 0 <= m < k ==> (#[trigger] out@[m]).name@ == ks[m],
            forall|m: int| 0 <= m < k ==> gathered(t.column_of(ks[m]), (#[trigger] out@[m]).data, lead),
            forall|m: int| 0 <= m < k ==> crate::table::data_len((#[trigger] out@[m]).data) == lead.len(),
            forall|m: int| 0 <= m < k ==> crate::table::data_ok((#[trigger] out@[m]).data),
        decreases kc@.len() - k,
    {
        let c = kc[k];
        proof {
            t.lemma_column_of(ks[k as int], c as int);
        }
        let data = gather(&t.columns[c].data, &leaders);
        out.push(Column { name: keys[k].clone(), data });
        k = k + 1;
    }
    out.push(Column { name: value.clone(), data: ColumnData::Num(totals, scale) });
    let res = Table { columns: out };
    assert(res.names() =~= ks.push(value@));
    assert forall|a: int, b: int|
        0 <= a < res.columns@.len() && 0 <= b < res.columns@.len() && a != b
            implies #[trigger] res.columns@[a].name@ != #[trigger] res.columns@[b].name@ by {
        assert(res.names()[a] != res.names()[b]);
    }
    assert(res.wf());
    Ok(res)
}

} // verus!
