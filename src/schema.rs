use vstd::prelude::*;
use crate::table::{Table, TableError};

verus! {

/// The canonical column names a sales table must have, in this order.
pub open spec fn expected_schema() -> Seq<Seq<char>> {
    seq![
        "region"@,
        "country"@,
        "itemtype"@,
        "saleschannel"@,
        "orderpriority"@,
        "orderdate"@,
        "orderid"@,
        "shipdate"@,
        "unitssold"@,
        "unitprice"@,
        "unitcost"@,
        "totalrevenue"@,
        "totalcost"@,
        "totalprofit"@,
    ]
}

/// The expected column names, in order.
pub fn expected_columns() -> (r: Vec<String>)
    ensures
        r@.map_values(|s: String| s@) == expected_schema(),
{
    let mut r: Vec<String> = Vec::new();
    r.push("region".to_owned());
    r.push("country".to_owned());
    r.push("itemtype".to_owned());
    r.push("saleschannel".to_owned());
    r.push("orderpriority".to_owned());
    r.push("orderdate".to_owned());
    r.push("orderid".to_owned());
    r.push("shipdate".to_owned());
    r.push("unitssold".to_owned());
    r.push("unitprice".to_owned());
    r.push("unitcost".to_owned());
    r.push("totalrevenue".to_owned());
    r.push("totalcost".to_owned());
    r.push("totalprofit".to_owned());
    assert(r@.map_values(|s: String| s@) =~= expected_schema());
    r
}

/// Whether the column names equal `expected`, in order.
pub fn has_column_names(t: &Table, expected: &Vec<String>) -> (r: bool)
    ensures
        r == (t.names() == expected@.map_values(|s: String| s@)),
{
    if t.columns.len() != expected.len() {
        assert(t.names().len() != expected@.map_values(|s: String| s@).len());
        return false;
    }
    let mut c: usize = 0;
    while c < expected.len()
        invariant
            t.columns@.len() == expected@.len(),
            c <= expected@.len(),
            forall|d: int| 0 <= d < c ==> t.columns@[d].name@ == #[trigger] expected@[d]@,
        decreases expected@.len() - c,
    {
        if t.columns[c].name != expected[c] {
            assert(t.names()[c as int] != expected@.map_values(|s: String| s@)[c as int]);
            return false;
        }
        c = c + 1;
    }
    assert(t.names() =~= expected@.map_values(|s: String| s@));
    true
}

/// Accepts exactly the tables whose column names are the expected schema, in order.
pub fn validate_schema(t: &Table) -> (r: Result<(), TableError>)
    ensures
        r is Ok <==> t.names() == expected_schema(),
        r is Err ==> r == Err::<(), TableError>(TableError::SchemaMismatch),
{
    let expected = expected_columns();
    if has_column_names(t, &expected) {
        Ok(())
    } else {
        Err(TableError::SchemaMismatch)
    }
}

} // verus!
