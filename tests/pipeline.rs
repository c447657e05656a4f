use sales_pipeline::filter::select_greater;
use sales_pipeline::group::group_sum;
use sales_pipeline::normalize::{canonical_name, normalize_columns};
use sales_pipeline::pipeline::{run_pipeline, PipelineConfig};
use sales_pipeline::schema::{expected_columns, validate_schema};
use sales_pipeline::table::{Column, ColumnData, Table, TableError};

fn text(name: &str, values: &[&str]) -> Column {
    Column {
        name: name.to_string(),
        data: ColumnData::Text(values.iter().map(|v| v.to_string()).collect()),
    }
}

fn num(name: &str, values: &[i64]) -> Column {
    Column { name: name.to_string(), data: ColumnData::Num(values.to_vec(), 0) }
}

fn names(v: &[&str]) -> Vec<String> {
    v.iter().map(|s| s.to_string()).collect()
}

fn texts(c: &Column) -> Vec<String> {
    match &c.data {
        ColumnData::Text(v) => v.clone(),
        ColumnData::Num(..) => panic!("expected a text column"),
    }
}

fn nums(c: &Column) -> (Vec<i64>, u32) {
    match &c.data {
        ColumnData::Num(v, s) => (v.clone(), *s),
        ColumnData::Text(_) => panic!("expected a numeric column"),
    }
}

fn scenario_table() -> Table {
    Table {
        columns: vec![
            text("Region", &["Asia", "Asia", "Europe"]),
            text("Country", &["China", "China", "UK"]),
            num("TotalProfit", &[600000, 100000, 700000]),
        ],
    }
}

fn sorted_groups(t: &Table) -> Vec<(String, String, i64)> {
    let r = texts(&t.columns[0]);
    let c = texts(&t.columns[1]);
    let (s, _) = nums(&t.columns[2]);
    let mut out: Vec<(String, String, i64)> =
        (0..r.len()).map(|i| (r[i].clone(), c[i].clone(), s[i])).collect();
    out.sort();
    out
}

#[test]
fn scenario_normalize_filter_group() {
    let mut t = scenario_table();
    assert_eq!(normalize_columns(&mut t), Ok(()));
    assert_eq!(t.column_names(), names(&["region", "country", "totalprofit"]));

    let proj = names(&["region", "country", "totalprofit"]);
    let sel = select_greater(&t, &"totalprofit".to_string(), 500000, &proj).unwrap();
    assert_eq!(sel.column_names(), proj);
    assert_eq!(texts(&sel.columns[0]), names(&["Asia", "Europe"]));
    assert_eq!(texts(&sel.columns[1]), names(&["China", "UK"]));
    assert_eq!(nums(&sel.columns[2]), (vec![600000, 700000], 0));

    let g = group_sum(&t, &names(&["region", "country"]), &"totalprofit".to_string()).unwrap();
    assert_eq!(g.column_names(), names(&["region", "country", "totalprofit"]));
    assert_eq!(
        sorted_groups(&g),
        vec![
            ("Asia".to_string(), "China".to_string(), 700000),
            ("Europe".to_string(), "UK".to_string(), 700000),
        ]
    );
}

#[test]
fn canonical_name_lowercases_and_strips_whitespace() {
    assert_eq!(canonical_name(&"Total Profit".to_string()), "totalprofit");
    assert_eq!(canonical_name(&"  Item \t Type\n".to_string()), "itemtype");
    assert_eq!(canonical_name(&"Sales\u{a0}Channel".to_string()), "saleschannel");
    assert_eq!(canonical_name(&"".to_string()), "");
}

#[test]
fn canonical_names_have_no_whitespace_and_no_uppercase() {
    for raw in ["Order  Priority", "\tUNIT COST ", "a b\tc\r\nD"] {
        let c = canonical_name(&raw.to_string());
        assert!(!c.chars().any(|ch| ch.is_whitespace()));
        assert!(!c.chars().any(|ch| ch.is_uppercase()));
    }
}

#[test]
fn normalizing_twice_equals_once() {
    let mut t = scenario_table();
    normalize_columns(&mut t).unwrap();
    let once = t.column_names();
    normalize_columns(&mut t).unwrap();
    assert_eq!(t.column_names(), once);
    assert_eq!(nums(&t.columns[2]), (vec![600000, 100000, 700000], 0));
}

#[test]
fn normalizing_canonical_names_changes_nothing() {
    let mut t = Table { columns: vec![text("region", &["x"]), num("totalprofit", &[1])] };
    normalize_columns(&mut t).unwrap();
    assert_eq!(t.column_names(), names(&["region", "totalprofit"]));
}

#[test]
fn normalize_rejects_colliding_names() {
    let mut t = Table { columns: vec![num("Total Profit", &[1]), num("totalprofit", &[2])] };
    assert_eq!(normalize_columns(&mut t), Err(TableError::DuplicateColumn));
    assert_eq!(t.column_names(), names(&["Total Profit", "totalprofit"]));
}

#[test]
fn select_errors() {
    let t = Table { columns: vec![text("region", &["a"]), num("totalprofit", &[1])] };
    let proj = names(&["region"]);
    assert_eq!(
        select_greater(&t, &"profit".to_string(), 0, &proj).err(),
        Some(TableError::ColumnNotFound)
    );
    assert_eq!(
        select_greater(&t, &"region".to_string(), 0, &proj).err(),
        Some(TableError::TypeMismatch)
    );
    assert_eq!(
        select_greater(&t, &"totalprofit".to_string(), 0, &names(&["country"])).err(),
        Some(TableError::ColumnNotFound)
    );
    assert_eq!(
        select_greater(&t, &"totalprofit".to_string(), 0, &names(&["region", "region"])).err(),
        Some(TableError::DuplicateColumn)
    );
}

#[test]
fn select_keeps_order_and_projection_order() {
    let t = Table {
        columns: vec![
            text("k", &["a", "b", "c", "d"]),
            num("v", &[5, -3, 9, 5]),
        ],
    };
    let out = select_greater(&t, &"v".to_string(), 4, &names(&["v", "k"])).unwrap();
    assert_eq!(out.column_names(), names(&["v", "k"]));
    assert_eq!(nums(&out.columns[0]), (vec![5, 9, 5], 0));
    assert_eq!(texts(&out.columns[1]), names(&["a", "c", "d"]));
    let none = select_greater(&t, &"v".to_string(), 9, &names(&["k"])).unwrap();
    assert_eq!(none.height(), 0);
    assert!(none.height() <= t.height());
}

#[test]
fn select_compares_fixed_point_values_exactly() {
    let t = Table {
        columns: vec![Column {
            name: "totalprofit".to_string(),
            data: ColumnData::Num(vec![50000000, 50000001, 49999999], 2),
        }],
    };
    let out = select_greater(&t, &"totalprofit".to_string(), 500000, &names(&["totalprofit"])).unwrap();
    assert_eq!(nums(&out.columns[0]), (vec![50000001], 2));
}

#[test]
fn select_on_empty_table() {
    let t = Table { columns: vec![num("v", &[])] };
    let out = select_greater(&t, &"v".to_string(), 0, &names(&["v"])).unwrap();
    assert_eq!(out.height(), 0);
}

#[test]
fn group_first_occurrence_order_and_sizes() {
    let t = Table {
        columns: vec![
            text("k", &["b", "a", "b", "c", "a", "b"]),
            num("v", &[1, 2, 3, 4, 5, 6]),
        ],
    };
    let g = group_sum(&t, &names(&["k"]), &"v".to_string()).unwrap();
    assert_eq!(texts(&g.columns[0]), names(&["b", "a", "c"]));
    assert_eq!(nums(&g.columns[1]), (vec![10, 7, 4], 0));
    let total: i64 = nums(&g.columns[1]).0.iter().sum();
    assert_eq!(total, 21);
}

#[test]
fn group_by_numeric_key_keeps_scale() {
    let t = Table {
        columns: vec![
            num("year", &[2020, 2021, 2020]),
            Column { name: "amount".to_string(), data: ColumnData::Num(vec![150, 25, 5], 2) },
        ],
    };
    let g = group_sum(&t, &names(&["year"]), &"amount".to_string()).unwrap();
    assert_eq!(nums(&g.columns[0]), (vec![2020, 2021], 0));
    assert_eq!(nums(&g.columns[1]), (vec![155, 25], 2));
}

#[test]
fn group_with_no_keys_sums_everything() {
    let t = Table { columns: vec![num("v", &[1, 2, 3])] };
    let g = group_sum(&t, &Vec::new(), &"v".to_string()).unwrap();
    assert_eq!(nums(&g.columns[0]), (vec![6], 0));
}

#[test]
fn group_errors() {
    let t = Table { columns: vec![text("k", &["a"]), num("v", &[1])] };
    assert_eq!(
        group_sum(&t, &names(&["x"]), &"v".to_string()).err(),
        Some(TableError::ColumnNotFound)
    );
    assert_eq!(
        group_sum(&t, &names(&["k"]), &"w".to_string()).err(),
        Some(TableError::ColumnNotFound)
    );
    assert_eq!(
        group_sum(&t, &names(&["v"]), &"k".to_string()).err(),
        Some(TableError::TypeMismatch)
    );
    assert_eq!(
        group_sum(&t, &names(&["v"]), &"v".to_string()).err(),
        Some(TableError::DuplicateColumn)
    );
}

#[test]
fn group_sum_overflow_is_reported() {
    let t = Table { columns: vec![text("k", &["a", "a"]), num("v", &[i64::MAX, 1])] };
    assert_eq!(
        group_sum(&t, &names(&["k"]), &"v".to_string()).err(),
        Some(TableError::SumOverflow)
    );
    let u = Table { columns: vec![text("k", &["a", "a", "a"]), num("v", &[i64::MAX, 1, -1])] };
    let g = group_sum(&u, &names(&["k"]), &"v".to_string()).unwrap();
    assert_eq!(nums(&g.columns[1]), (vec![i64::MAX], 0));
}

fn sales_table(header: &[&str]) -> Table {
    let mut columns = Vec::new();
    for h in header {
        let canon: String = h.chars().filter(|c| !c.is_whitespace()).collect::<String>().to_lowercase();
        let col = match canon.as_str() {
            "region" => text(h, &["Asia", "Asia", "Europe"]),
            "country" => text(h, &["China", "China", "UK"]),
            "totalprofit" => num(h, &[600000, 100000, 700000]),
            "orderid" => num(h, &[1, 2, 3]),
            _ => text(h, &["x", "y", "z"]),
        };
        columns.push(col);
    }
    Table { columns }
}

const RAW_HEADER: [&str; 14] = [
    "Region", "Country", "Item Type", "Sales Channel", "Order Priority", "Order Date", "Order ID",
    "Ship Date", "Units Sold", "Unit Price", "Unit Cost", "Total Revenue", "Total Cost",
    "Total Profit",
];

#[test]
fn pipeline_runs_on_sales_header() {
    let mut t = sales_table(&RAW_HEADER);
    assert!(t.has_valid_shape());
    let out = run_pipeline(&mut t, &PipelineConfig::standard()).unwrap();
    assert_eq!(t.column_names(), expected_columns());
    assert_eq!(nums(&out.selected.columns[2]), (vec![600000, 700000], 0));
    assert_eq!(
        sorted_groups(&out.grouped),
        vec![
            ("Asia".to_string(), "China".to_string(), 700000),
            ("Europe".to_string(), "UK".to_string(), 700000),
        ]
    );
}

#[test]
fn pipeline_rejects_missing_orderid() {
    let header: Vec<&str> = RAW_HEADER.iter().copied().filter(|h| *h != "Order ID").collect();
    let mut t = sales_table(&header);
    assert_eq!(run_pipeline(&mut t, &PipelineConfig::standard()).err(), Some(TableError::SchemaMismatch));
    assert_eq!(validate_schema(&t), Err(TableError::SchemaMismatch));
}

#[test]
fn pipeline_rejects_reordered_columns() {
    let mut header = RAW_HEADER.to_vec();
    header.swap(0, 1);
    let mut t = sales_table(&header);
    assert_eq!(run_pipeline(&mut t, &PipelineConfig::standard()).err(), Some(TableError::SchemaMismatch));
}

#[test]
fn standard_config_values() {
    let c = PipelineConfig::standard();
    assert_eq!(c.profit_threshold, 500000);
    assert_eq!(c.group_keys, names(&["region", "country"]));
    assert_eq!(c.sum_column, "totalprofit");
    assert_eq!(c.output_path, "grouped_sales.csv");
}

#[test]
fn shape_check_finds_ragged_columns() {
    let t = Table { columns: vec![num("a", &[1, 2]), num("b", &[1])] };
    assert!(!t.has_valid_shape());
    let u = Table {
        columns: vec![Column { name: "a".to_string(), data: ColumnData::Num(vec![1], 19) }],
    };
    assert!(!u.has_valid_shape());
    assert_eq!(t.width(), 2);
}
