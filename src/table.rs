use vstd::prelude::*;

verus! {

/// The values of one column. Numbers are fixed-point: a unit stands for
/// `10^-scale` of one, so that integers have scale 0.
pub enum ColumnData {
    Text(Vec<String>),
    Num(Vec<i64>, u32),
}

/// A named column.
pub struct Column {
    pub name: String,
    pub data: ColumnData,
}

/// An ordered sequence of named, equal-length columns.
pub struct Table {
    pub columns: Vec<Column>,
}

/// Why a table operation was refused.
#[derive(Debug, PartialEq, Eq, Structural)]
pub enum TableError {
    /// Two column names became equal after normalization.
    DuplicateColumn,
    /// The column names differ from the expected schema.
    SchemaMismatch,
    /// A referenced column does not exist.
    ColumnNotFound,
    /// A numeric operation was applied to a text column.
    TypeMismatch,
    /// A group's sum does not fit in a 64-bit integer.
    SumOverflow,
}

/// The largest scale a numeric column may have.
pub const MAX_SCALE: u32 = 18;

pub open spec fn data_len(d: ColumnData) -> nat {
    match d {
        ColumnData::Text(v) => v@.len(),
        ColumnData::Num(v, _) => v@.len(),
    }
}

pub open spec fn data_ok(d: ColumnData) -> bool {
    match d {
        ColumnData::Text(_) => true,
        ColumnData::Num(_, s) => s <= MAX_SCALE,
    }
}

/// Cells `i` and `j` of a column hold equal values.
pub open spec fn same_cell(d: ColumnData, i: int, j: int) -> bool {
    match d {
        ColumnData::Text(v) => v@[i]@ == v@[j]@,
        ColumnData::Num(v, _) => v@[i] == v@[j],
    }
}

/// The column holding the cells of `d` at the row indices `rows`, in that order.
pub open spec fn gathered(d: ColumnData, out: ColumnData, rows: Seq<int>) -> bool {
    match (d, out) {
        (ColumnData::Text(v), ColumnData::Text(w)) => w@.len() == rows.len() && forall|k: int|
            0 <= k < rows.len() ==> w@[k]@ == #[trigger] v@[rows[k]]@,
        (ColumnData::Num(v, s), ColumnData::Num(w, t)) => s == t && w@.len() == rows.len()
            && forall|k: int| 0 <= k < rows.len() ==> w@[k] == #[trigger] v@[rows[k]],
        _ => false,
    }
}

pub open spec fn rows_in(rows: Seq<int>, n: nat) -> bool {
    forall|k: int| 0 <= k < rows.len() ==> 0 <= #[trigger] rows[k] < n
}

/// Ten to the power `n`.
pub open spec fn pow10(n: nat) -> int
    decreases n,
{
    if n == 0 {
        1
    } else {
        10 * pow10((n - 1) as nat)
    }
}

impl Table {
    /// The data of the column called `name`.
    pub open spec fn column_of(&self, name: Seq<char>) -> ColumnData {
        self.columns@[choose|c: int| self.has_column_at(name, c)].data
    }

    /// In a well-formed table the name picks its column.
    pub proof fn lemma_column_of(&self, name: Seq<char>, c: int)
        requires
            self.wf(),
            self.has_column_at(name, c),
        ensures
            self.column_of(name) == self.columns@[c].data,
    {
        let d = choose|d: int| self.has_column_at(name, d);
        assert(self.columns@[d].name@ == self.columns@[c].name@);
    }

    /// The column names, in order.
    pub open spec fn names(&self) -> Seq<Seq<char>> {
        self.columns@.map_values(|c: Column| c.name@)
    }

    /// The number of rows: the common length of the columns.
    pub open spec fn row_count(&self) -> nat {
        if self.columns@.len() == 0 {
            0
        } else {
            data_len(self.columns@[0].data)
        }
    }

    /// Equal-length columns, each with a scale in range.
    pub open spec fn shape_ok(&self) -> bool {
        forall|c: int|
            0 <= c < self.columns@.len() ==> data_len(#[trigger] self.columns@[c].data)
                == self.row_count() && data_ok(self.columns@[c].data)
    }

    /// Equal-length, well-formed columns with pairwise distinct names.
    pub open spec fn wf(&self) -> bool {
        &&& self.shape_ok()
        &&& forall|a: int, b: int|
            0 <= a < self.columns@.len() && 0 <= b < self.columns@.len() && a != b
                ==> #[trigger] self.columns@[a].name@ != #[trigger] self.columns@[b].name@
    }

    /// Column `c` exists and is called `name`.
    pub open spec fn has_column_at(&self, name: Seq<char>, c: int) -> bool {
        0 <= c < self.columns@.len() && self.columns@[c].name@ == name
    }

    pub open spec fn has_column(&self, name: Seq<char>) -> bool {
        exists|c: int| self.has_column_at(name, c)
    }

    /// The position of the column called `name`.
    pub fn column_index(&self, name: &String) -> (r: Option<usize>)
        ensures
            match r {
                Some(c) => self.has_column_at(name@, c as int),
                None => !self.has_column(name@),
            },
    {
        let mut c: usize = 0;
        while c < self.columns.len()
            invariant
                c <= self.columns@.len(),
                forall|d: int| 0 <= d < c ==> self.columns@[d].name@ != name@,
            decreases self.columns@.len() - c,
        {
            if self.columns[c].name == *name {
                return Some(c);
            }
            c = c + 1;
        }
        None
    }

    /// Whether the columns have equal lengths and scales in range.
    pub fn has_valid_shape(&self) -> (r: bool)
        ensures
            r == self.shape_ok(),
    {
        if self.columns.len() == 0 {
            return true;
        }
        let n = match &self.columns[0].data {
            ColumnData::Text(v) => v.len(),
            ColumnData::Num(v, _) => v.len(),
        };
        let mut c: usize = 0;
        while c < self.columns.len()
            invariant
                self.columns@.len() > 0,
                n == self.row_count(),
                c <= self.columns@.len(),
                forall|d: int|
                    0 <= d < c ==> data_len(#[trigger] self.columns@[d].data) == self.row_count()
                        && data_ok(self.columns@[d].data),
            decreases self.columns@.len() - c,
        {
            let ok = match &self.columns[c].data {
                ColumnData::Text(v) => v.len() == n,
                ColumnData::Num(v, s) => v.len() == n && *s <= MAX_SCALE,
            };
            if !ok {
                return false;
            }
            c = c + 1;
        }
        true
    }

    /// The number of rows.
    pub fn height(&self) -> (r: usize)
        requires
            self.wf(),
        ensures
            r == self.row_count(),
    {
        if self.columns.len() == 0 {
            0
        } else {
            match &self.columns[0].data {
                ColumnData::Text(v) => v.len(),
                ColumnData::Num(v, _) => v.len(),
            }
        }
    }

    /// The number of columns.
    pub fn width(&self) -> (r: usize)
        ensures
            r == self.columns@.len(),
    {
        self.columns.len()
    }

    /// The column names, in order.
    pub fn column_names(&self) -> (r: Vec<String>)
        ensures
            r@.map_values(|s: String| s@) == self.names(),
    {
        let mut r: Vec<String> = Vec::new();
        let mut c: usize = 0;
        while c < self.columns.len()
            invariant
                c <= self.columns@.len(),
                r@.len() == c,
                forall|d: int| 0 <= d < c ==> r@[d]@ == self.columns@[d].name@,
            decreases self.columns@.len() - c,
        {
            r.push(self.columns[c].name.clone());
            c = c + 1;
        }
        assert(r@.map_values(|s: String| s@) =~= self.names());
        r
    }
}

/// The cells of `d` at the row indices `rows`, in that order.
pub fn gather(d: &ColumnData, rows: &Vec<usize>) -> (out: ColumnData)
    requires
        rows_in(rows@.map_values(|i: usize| i as int), data_len(*d)),
    ensures
        gathered(*d, out, rows@.map_values(|i: usize| i as int)),
        data_len(out) == rows@.len(),
        data_ok(*d) ==> data_ok(out),
{
    let ghost idx = rows@.map_values(|i: usize| i as int);
    match d {
        ColumnData::Text(v) => {
            let mut w: Vec<String> = Vec::new();
            let mut k: usize = 0;
            while k < rows.len()
                invariant
                    k <= rows@.len(),
                    idx == rows@.map_values(|i: usize| i as int),
                    rows_in(idx, v@.len()),
                    w@.len() == k,
                    forall|m: int| 0 <= m < k ==> w@[m]@ == #[trigger] v@[idx[m]]@,
                decreases rows@.len() - k,
            {
                assert(0 <= idx[k as int] < v@.len());
                w.push(v[rows[k]].clone());
                k = k + 1;
            }
            ColumnData::Text(w)
        },
        ColumnData::Num(v, s) => {
            let mut w: Vec<i64> = Vec::new();
            let mut k: usize = 0;
            while k < rows.len()
                invariant
                    k <= rows@.len(),
                    idx == rows@.map_values(|i: usize| i as int),
                    rows_in(idx, v@.len()),
                    w@.len() == k,
                    forall|m: int| 0 <= m < k ==> w@[m] == #[trigger] v@[idx[m]],
                decreases rows@.len() - k,
            {
                assert(0 <= idx[k as int] < v@.len());
                w.push(v[rows[k]]);
                k = k + 1;
            }
            ColumnData::Num(w, *s)
        },
    }
}

} // verus!
