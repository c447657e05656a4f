use vstd::prelude::*;
use crate::table::{Table, TableError};
use crate::normalize::{all_distinct, canonical_names, normalize_columns};
use crate::schema::{expected_schema, validate_schema};
use crate::filter::{is_selection, select_greater, selection_succeeds};
use crate::group::{group_sum, grouping_succeeds, is_grouping};

verus! {

/// The fixed parameters of a pipeline run.
pub struct PipelineConfig {
    /// Where the sales CSV is fetched from.
    pub source_url: String,
    /// Where the fetched CSV is kept.
    pub local_path: String,
    /// Where the grouped result is written.
    pub output_path: String,
    /// Rows are kept when `filter_column` is strictly greater than this.
    pub profit_threshold: i64,
    pub filter_column: String,
    /// The columns of the filtered view, in order.
    pub projection: Vec<String>,
    /// The columns whose values form a group.
    pub group_keys: Vec<String>,
    /// The column summed per group.
    pub sum_column: String,
}

/// The two views a run derives from the table.
pub struct PipelineOutput {
    pub selected: Table,
    pub grouped: Table,
}

pub open spec fn views(v: Vec<String>) -> Seq<Seq<char>> {
    v@.map_values(|s: String| s@)
}

impl PipelineConfig {
    /// The sales pipeline: profits above 500000, summed by region and country.
    pub fn standard() -> (r: Self)
        ensures
            r.source_url@ == "https://raw.githubusercontent.com/gchandra10/filestorage/main/sales_100.csv"@,
            r.local_path@ == "sales_100.csv"@,
            r.output_path@ == "grouped_sales.csv"@,
            r.profit_threshold == 500000,
            r.filter_column@ == "totalprofit"@,
            views(r.projection) == seq!["region"@, "country"@, "totalprofit"@],
            views(r.group_keys) == seq!["region"@, "country"@],
            r.sum_column@ == "totalprofit"@,
    {
        let mut projection: Vec<String> = Vec::new();
        projection.push("region".to_owned());
        projection.push("country".to_owned());
        projection.push("totalprofit".to_owned());
        let mut group_keys: Vec<String> = Vec::new();
        group_keys.push("region".to_owned());
        group_keys.push("country".to_owned());
        assert(views(projection) =~= seq!["region"@, "country"@, "totalprofit"@]);
        assert(views(group_keys) =~= seq!["region"@, "country"@]);
        PipelineConfig {
            source_url: "https://raw.githubusercontent.com/gchandra10/filestorage/main/sales_100.csv".to_owned(),
            local_path: "sales_100.csv".to_owned(),
            output_path: "grouped_sales.csv".to_owned(),
            profit_threshold: 500000,
            filter_column: "totalprofit".to_owned(),
            projection,
            group_keys,
            sum_column: "totalprofit".to_owned(),
        }
    }
}

/// Normalizes the table's names in place, checks them against the expected
/// schema, then derives the filtered and the grouped view. The first failing
/// step ends the run.
pub fn run_pipeline(t: &mut Table, config: &PipelineConfig) -> (r: Result<PipelineOutput, TableError>)
    requires
        old(t).shape_ok(),
    ensures
        !all_distinct(canonical_names(*old(t))) ==> r == Err::<PipelineOutput, TableError>(
            TableError::DuplicateColumn) && *final(t) == *old(t),
        all_distinct(canonical_names(*old(t))) ==> final(t).wf() && final(t).names() == canonical_names(*old(t))
            && final(t).columns@.len() == old(t).columns@.len() && forall|c: int|
            0 <= c < old(t).columns@.len() ==> (#[trigger] final(t).columns@[c]).data == old(t).columns@[c].data,
        all_distinct(canonical_names(*old(t))) && canonical_names(*old(t)) != expected_schema()
            ==> r == Err::<PipelineOutput, TableError>(TableError::SchemaMismatch),
        r is Ok <==> all_distinct(canonical_names(*old(t))) && canonical_names(*old(t)) == expected_schema()
            && selection_succeeds(*final(t), config.filter_column@, views(config.projection))
            && grouping_succeeds(*final(t), views(config.group_keys), config.sum_column@),
        r matches Ok(out) ==> is_selection(
            *final(t),
            config.filter_column@,
            config.profit_threshold as int,
            views(config.projection),
            out.selected,
        ) && is_grouping(*final(t), views(config.group_keys), config.sum_column@, out.grouped),
{
    let ghost orig = *t;
    match normalize_columns(t) {
        Ok(()) => {},
        Err(e) => {
            return Err(e);
        },
    }
    assert(t.shape_ok()) by {
        assert forall|c: int| 0 <= c < t.columns@.len() implies crate::table::data_len(#[trigger] t.columns@[c].data)
            == t.row_count() && crate::table::data_ok(t.columns@[c].data) by {
            assert(orig.columns@[c].data == t.columns@[c].data);
            if t.columns@.len() > 0 {
                assert(orig.columns@[0].data == t.columns@[0].data);
            }
        }
    }
    assert forall|a: int, b: int|
        0 <= a < t.columns@.len() && 0 <= b < t.columns@.len() && a != b
            implies #[trigger] t.columns@[a].name@ != #[trigger] t.columns@[b].name@ by {
        assert(t.names()[a] != t.names()[b]);
    }
    validate_schema(t)?;
    let selected = select_greater(t, &config.filter_column, config.profit_threshold, &config.projection)?;
    let grouped = group_sum(t, &config.group_keys, &config.sum_column)?;
    Ok(PipelineOutput { selected, grouped })
}

} // verus!
