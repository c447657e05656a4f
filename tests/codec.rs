use polars::prelude::{CsvReadOptions, CsvWriter, DataFrame, NamedFrom, SerReader, SerWriter, Series};
use sales_pipeline::table::{Column, ColumnData, Table};
use std::io::Cursor;

#[test]
fn csv_round_trip_keeps_names_order_and_values() {
    let mut df = DataFrame::new(vec![
        Series::new("region", vec!["Asia", "Asia", "Europe"]),
        Series::new("country", vec!["China", "China", "UK"]),
        Series::new("totalprofit", vec![600000i64, 100000, 700000]),
    ])
    .unwrap();
    let mut buf: Vec<u8> = Vec::new();
    CsvWriter::new(&mut buf).finish(&mut df).unwrap();
    let back = CsvReadOptions::default()
        .with_has_header(true)
        .into_reader_with_file_handle(Cursor::new(buf))
        .finish()
        .unwrap();
    assert_eq!(back.get_column_names(), vec!["region", "country", "totalprofit"]);
    assert!(back.equals(&df));

    let t = Table {
        columns: vec![Column {
            name: "totalprofit".to_string(),
            data: ColumnData::Num(back.column("totalprofit").unwrap().i64().unwrap().into_no_null_iter().collect(), 0),
        }],
    };
    assert_eq!(t.height(), 3);
}
