//! Column layouts. A schema is an ordered list of named, typed columns,
//! fixed when the table is created. Names are unique and at most one
//! column is a fixed-dimension vector column.

use vstd::prelude::*;

verus! {

use crate::error::SchemaError;
use crate::value::{Value, ValueV, bytes_eq, row_view};

/// Widest vector column the engine accepts; keeps every distance
/// computation inside 128-bit arithmetic.
pub const MAX_DIM: usize = 65536;

/// The type of one column.
#[derive(Clone, Copy, PartialEq, Eq, Structural, Debug)]
pub enum ColumnType {
    Int32,
    Utf8,
    /// A vector of this many 32-bit fixed-precision elements.
    FixedSizeVector(usize),
}

/// One named, typed column.
#[derive(Clone, Debug)]
pub struct ColumnDef {
    pub name: Vec<u8>,
    pub ctype: ColumnType,
    pub nullable: bool,
}

/// An ordered, validated column layout.
#[derive(Clone, Debug)]
pub struct Schema {
    pub cols: Vec<ColumnDef>,
}

/// Does an earlier column carry the same name as column `i`?
pub open spec fn dup_name_before(cols: Seq<ColumnDef>, i: int) -> bool {
    exists|j: int| 0 <= j < i && cols[j].name@ == cols[i].name@
}

/// Does an earlier column already hold the table's vector column?
pub open spec fn vector_before(cols: Seq<ColumnDef>, i: int) -> bool {
    exists|j: int| 0 <= j < i && cols[j].ctype is FixedSizeVector
}

/// The defect of column `i`, if it has one, with earlier columns taken
/// as context: a repeated name, a zero-dimension vector, a vector wider
/// than [`MAX_DIM`], or a second vector column.
pub open spec fn issue_at(cols: Seq<ColumnDef>, i: int) -> Option<SchemaError> {
    if dup_name_before(cols, i) {
        Some(SchemaError::DuplicateName(i as usize))
    } else {
        match cols[i].ctype {
            ColumnType::FixedSizeVector(d) => if d == 0 {
                Some(SchemaError::ZeroDimVector(i as usize))
            } else if d > MAX_DIM || vector_before(cols, i) {
                Some(SchemaError::UnsupportedType(i as usize))
            } else {
                None
            },
            _ => None,
        }
    }
}

/// The defect of the leftmost defective column at or after `i`.
pub open spec fn first_issue_from(cols: Seq<ColumnDef>, i: int) -> Option<SchemaError>
    decreases cols.len() - i,
{
    if i < 0 || i >= cols.len() {
        None
    } else if issue_at(cols, i) is Some {
        issue_at(cols, i)
    } else {
        first_issue_from(cols, i + 1)
    }
}

/// A column list every column of which is defect-free.
pub open spec fn wf_columns(cols: Seq<ColumnDef>) -> bool {
    forall|i: int| 0 <= i < cols.len() ==> issue_at(cols, i) is None
}

pub proof fn lemma_first_issue_none(cols: Seq<ColumnDef>, i: int)
    requires
        0 <= i <= cols.len(),
    ensures
        first_issue_from(cols, i) is None <==> (forall|j: int|
            i <= j < cols.len() ==> issue_at(cols, j) is None),
    decreases cols.len() - i,
{
    if i < cols.len() {
        lemma_first_issue_none(cols, i + 1);
    }
}

/// The abstract type of a concrete value: vectors report their length.
pub open spec fn value_type_of(v: ValueV) -> ColumnType {
    match v {
        ValueV::Int32(_) => ColumnType::Int32,
        ValueV::Utf8(_) => ColumnType::Utf8,
        ValueV::Vector(s) => ColumnType::FixedSizeVector(s.len() as usize),
    }
}

/// Does the value's kind match the column's type? Vector lengths are
/// checked separately, at encoding time.
pub open spec fn kind_matches(v: ValueV, t: ColumnType) -> bool {
    match (v, t) {
        (ValueV::Int32(_), ColumnType::Int32) => true,
        (ValueV::Utf8(_), ColumnType::Utf8) => true,
        (ValueV::Vector(_), ColumnType::FixedSizeVector(_)) => true,
        _ => false,
    }
}

/// A row with one kind-matching value per column.
pub open spec fn row_conforms(cols: Seq<ColumnDef>, row: Seq<ValueV>) -> bool {
    &&& row.len() == cols.len()
    &&& forall|i: int| 0 <= i < cols.len() ==> kind_matches(row[i], cols[i].ctype)
}

/// Every row of the batch conforms to the columns.
pub open spec fn batch_conforms(cols: Seq<ColumnDef>, batch: Seq<Seq<ValueV>>) -> bool {
    forall|r: int| 0 <= r < batch.len() ==> row_conforms(cols, batch[r])
}

/// The mismatch reported for a nonconforming row: the first position
/// where kinds differ, or, for a row of the wrong arity whose shared
/// prefix matches, the first absent or extra position.
pub open spec fn row_issue(cols: Seq<ColumnDef>, row: Seq<ValueV>, i: int) -> Option<
    SchemaError,
>
    decreases cols.len() + row.len() - 2 * i,
{
    if i < 0 {
        None
    } else if i < cols.len() && i < row.len() {
        if !kind_matches(row[i], cols[i].ctype) {
            Some(
                SchemaError::SchemaMismatch {
                    column: i as usize,
                    expected: cols[i].ctype,
                    actual: value_type_of(row[i]),
                },
            )
        } else {
            row_issue(cols, row, i + 1)
        }
    } else if i < cols.len() {
        Some(
            SchemaError::SchemaMismatch {
                column: i as usize,
                expected: cols[i].ctype,
                actual: cols[i].ctype,
            },
        )
    } else if i < row.len() {
        Some(
            SchemaError::SchemaMismatch {
                column: i as usize,
                expected: value_type_of(row[i]),
                actual: value_type_of(row[i]),
            },
        )
    } else {
        None
    }
}

/// The mismatch of the first nonconforming row at or after `r`.
pub open spec fn first_batch_issue_from(
    cols: Seq<ColumnDef>,
    batch: Seq<Seq<ValueV>>,
    r: int,
) -> Option<SchemaError>
    decreases batch.len() - r,
{
    if r < 0 || r >= batch.len() {
        None
    } else if row_issue(cols, batch[r], 0) is Some {
        row_issue(cols, batch[r], 0)
    } else {
        first_batch_issue_from(cols, batch, r + 1)
    }
}

pub proof fn lemma_row_issue_none(cols: Seq<ColumnDef>, row: Seq<ValueV>, i: int)
    requires
        0 <= i,
    ensures
        row_issue(cols, row, i) is None <==> ((row.len() == cols.len() || (cols.len() <= i
            && row.len() <= i)) && (forall|j: int|
            i <= j < cols.len() && j < row.len() ==> kind_matches(row[j], cols[j].ctype))),
    decreases cols.len() + row.len() - 2 * i,
{
    if i < cols.len() && i < row.len() {
        lemma_row_issue_none(cols, row, i + 1);
    }
}

pub proof fn lemma_row_issue_conforms(cols: Seq<ColumnDef>, row: Seq<ValueV>)
    ensures
        row_issue(cols, row, 0) is None <==> row_conforms(cols, row),
{
    lemma_row_issue_none(cols, row, 0);
}

pub proof fn lemma_first_batch_issue_none(
    cols: Seq<ColumnDef>,
    batch: Seq<Seq<ValueV>>,
    r: int,
)
    requires
        0 <= r <= batch.len(),
    ensures
        first_batch_issue_from(cols, batch, r) is None <==> (forall|j: int|
            r <= j < batch.len() ==> row_issue(cols, batch[j], 0) is None),
    decreases batch.len() - r,
{
    if r < batch.len() {
        lemma_first_batch_issue_none(cols, batch, r + 1);
    }
}

impl Schema {
    /// A schema is well formed when no column is defective.
    pub open spec fn wf(self) -> bool {
        wf_columns(self.cols@)
    }

    /// Validate a column list and seal it as a schema.
    ///
    /// Returns the schema exactly when no column is defective; otherwise
    /// the defect of the leftmost defective column.
    #[verifier::loop_isolation(false)]
    pub fn define(cols: Vec<ColumnDef>) -> (r: Result<Schema, SchemaError>)
        ensures
            match r {
                Ok(s) => s.cols@ == cols@ && s.wf() && first_issue_from(cols@, 0) is None,
                Err(e) => first_issue_from(cols@, 0) == Some(e),
            },
    {
        let n = cols.len();
        let mut saw_vector: bool = false;
        let mut i: usize = 0;
        while i < n
            invariant
                n == cols@.len(),
                i <= n,
                saw_vector <==> vector_before(cols@, i as int),
                forall|m: int| 0 <= m < i ==> issue_at(cols@, m) is None,
                first_issue_from(cols@, 0) == first_issue_from(cols@, i as int),
            decreases n - i,
        {
            let mut j: usize = 0;
            while j < i
                invariant
                    i < n == cols@.len(),
                    j <= i,
                    forall|m: int| 0 <= m < j ==> cols@[m].name@ != cols@[i as int].name@,
                decreases i - j,
            {
                if bytes_eq(&cols[j].name, &cols[i].name) {
                    proof {
                        assert(dup_name_before(cols@, i as int));
                    }
                    return Err(SchemaError::DuplicateName(i));
                }
                j += 1;
            }
            proof {
                assert(!dup_name_before(cols@, i as int));
            }
            match cols[i].ctype {
                ColumnType::FixedSizeVector(d) => {
                    if d == 0 {
                        return Err(SchemaError::ZeroDimVector(i));
                    }
                    if d > MAX_DIM || saw_vector {
                        return Err(SchemaError::UnsupportedType(i));
                    }
                    saw_vector = true;
                },
                _ => {},
            }
            proof {
                assert(issue_at(cols@, i as int) is None);
                assert(vector_before(cols@, i as int + 1) <==> (vector_before(cols@, i as int)
                    || cols@[i as int].ctype is FixedSizeVector));
            }
            i += 1;
        }
        proof {
            lemma_first_issue_none(cols@, 0);
        }
        Ok(Schema { cols })
    }

    /// Check that every row of the batch matches the schema's column
    /// kinds and arity.
    ///
    /// Returns `Ok` exactly when the batch conforms; otherwise the
    /// mismatch of the first nonconforming row.
    #[verifier::loop_isolation(false)]
    pub fn validate_batch(&self, batch: &Vec<Vec<Value>>) -> (r: Result<(), SchemaError>)
        ensures
            match r {
                Ok(_) => batch_conforms(self.cols@, crate::value::batch_view(batch@)),
                Err(e) => first_batch_issue_from(
                    self.cols@,
                    crate::value::batch_view(batch@),
                    0,
                ) == Some(e),
            },
    {
        let ghost bview = crate::value::batch_view(batch@);
        let nrows = batch.len();
        let ncols = self.cols.len();
        let mut r: usize = 0;
        while r < nrows
            invariant
                nrows == batch@.len(),
                ncols == self.cols@.len(),
                bview == crate::value::batch_view(batch@),
                bview.len() == nrows,
                r <= nrows,
                forall|m: int| 0 <= m < r ==> row_issue(self.cols@, bview[m], 0) is None,
                first_batch_issue_from(self.cols@, bview, 0) == first_batch_issue_from(
                    self.cols@,
                    bview,
                    r as int,
                ),
            decreases nrows - r,
        {
            let row = &batch[r];
            let ghost rview = row_view(row@);
            proof {
                assert(bview[r as int] == rview);
            }
            let rlen = row.len();
            let mut c: usize = 0;
            while c < rlen && c < ncols
                invariant
                    rlen == row@.len() == rview.len(),
                    ncols == self.cols@.len(),
                    rview == row_view(row@),
                    c <= rlen,
                    c <= ncols,
                    forall|m: int|
                        0 <= m < c ==> kind_matches(rview[m], self.cols@[m].ctype),
                    row_issue(self.cols@, rview, 0) == row_issue(self.cols@, rview, c as int),
                decreases rlen - c,
            {
                let ok = match (&row[c], &self.cols[c].ctype) {
                    (Value::Int32(_), ColumnType::Int32) => true,
                    (Value::Utf8(_), ColumnType::Utf8) => true,
                    (Value::Vector(_), ColumnType::FixedSizeVector(_)) => true,
                    _ => false,
                };
                proof {
                    assert(rview[c as int] == row@[c as int]@);
                    assert(ok <==> kind_matches(rview[c as int], self.cols@[c as int].ctype));
                }
                if !ok {
                    let actual = match &row[c] {
                        Value::Int32(_) => ColumnType::Int32,
                        Value::Utf8(s) => ColumnType::Utf8,
                        Value::Vector(v) => ColumnType::FixedSizeVector(v.len()),
                    };
                    proof {
                        assert(actual == value_type_of(rview[c as int]));
                    }
                    return Err(
                        SchemaError::SchemaMismatch {
                            column: c,
                            expected: self.cols[c].ctype,
                            actual,
                        },
                    );
                }
                c += 1;
            }
            if c < ncols {
                return Err(
                    SchemaError::SchemaMismatch {
                        column: c,
                        expected: self.cols[c].ctype,
                        actual: self.cols[c].ctype,
                    },
                );
            }
            if c < rlen {
                let actual = match &row[c] {
                    Value::Int32(_) => ColumnType::Int32,
                    Value::Utf8(s) => ColumnType::Utf8,
                    Value::Vector(v) => ColumnType::FixedSizeVector(v.len()),
                };
                proof {
                    assert(rview[c as int] == row@[c as int]@);
                    assert(actual == value_type_of(rview[c as int]));
                }
                return Err(
                    SchemaError::SchemaMismatch { column: c, expected: actual, actual },
                );
            }
            proof {
                assert(row_issue(self.cols@, rview, c as int) is None);
            }
            r += 1;
        }
        proof {
            lemma_first_batch_issue_none(self.cols@, bview, 0);
            assert forall|m: int| 0 <= m < bview.len() implies row_conforms(
                self.cols@,
                bview[m],
            ) by {
                lemma_row_issue_conforms(self.cols@, bview[m]);
            }
        }
        Ok(())
    }

    /// The index of the table's vector column, if it has one.
    pub open spec fn spec_vector_col_from(cols: Seq<ColumnDef>, i: int) -> Option<usize>
        decreases cols.len() - i,
    {
        if i < 0 || i >= cols.len() {
            None
        } else if cols[i].ctype is FixedSizeVector {
            Some(i as usize)
        } else {
            Schema::spec_vector_col_from(cols, i + 1)
        }
    }

    pub open spec fn spec_vector_col(self) -> Option<usize> {
        Schema::spec_vector_col_from(self.cols@, 0)
    }

    /// A found vector column index is in range and is a vector column.
    pub proof fn lemma_vector_col_props(cols: Seq<ColumnDef>, i: int)
        requires
            0 <= i <= cols.len(),
            cols.len() <= usize::MAX,
        ensures
            match Schema::spec_vector_col_from(cols, i) {
                Some(v) => i <= v < cols.len() && cols[v as int].ctype is FixedSizeVector,
                None => true,
            },
        decreases cols.len() - i,
    {
        if i < cols.len() && !(cols[i].ctype is FixedSizeVector) {
            Schema::lemma_vector_col_props(cols, i + 1);
        }
    }

    /// The dimension of the table's vector column, or zero if none.
    pub open spec fn spec_vector_dim(self) -> usize {
        match self.spec_vector_col() {
            Some(c) => match self.cols@[c as int].ctype {
                ColumnType::FixedSizeVector(d) => d,
                _ => 0,
            },
            None => 0,
        }
    }

    /// Find the leftmost vector column.
    pub fn vector_col(&self) -> (r: Option<usize>)
        ensures
            r == self.spec_vector_col(),
    {
        let n = self.cols.len();
        let mut i: usize = 0;
        while i < n
            invariant
                n == self.cols@.len(),
                i <= n,
                Schema::spec_vector_col_from(self.cols@, 0) == Schema::spec_vector_col_from(
                    self.cols@,
                    i as int,
                ),
            decreases n - i,
        {
            match self.cols[i].ctype {
                ColumnType::FixedSizeVector(_) => {
                    return Some(i);
                },
                _ => {},
            }
            i += 1;
        }
        None
    }

    /// The index of the named column, if any.
    pub open spec fn spec_col_named_from(cols: Seq<ColumnDef>, name: Seq<u8>, i: int) -> Option<
        usize,
    >
        decreases cols.len() - i,
    {
        if i < 0 || i >= cols.len() {
            None
        } else if cols[i].name@ == name {
            Some(i as usize)
        } else {
            Schema::spec_col_named_from(cols, name, i + 1)
        }
    }

    pub open spec fn spec_col_named(self, name: Seq<u8>) -> Option<usize> {
        Schema::spec_col_named_from(self.cols@, name, 0)
    }

    /// A found column index is in range and carries the name.
    pub proof fn lemma_col_named_bounds(cols: Seq<ColumnDef>, name: Seq<u8>, i: int)
        requires
            0 <= i <= cols.len(),
            cols.len() <= usize::MAX,
        ensures
            match Schema::spec_col_named_from(cols, name, i) {
                Some(ci) => i <= ci < cols.len() && cols[ci as int].name@ == name,
                None => true,
            },
        decreases cols.len() - i,
    {
        if i < cols.len() && cols[i].name@ != name {
            Schema::lemma_col_named_bounds(cols, name, i + 1);
        }
    }

    /// Find the leftmost column of this name.
    pub fn col_named(&self, name: &Vec<u8>) -> (r: Option<usize>)
        ensures
            r == self.spec_col_named(name@),
    {
        let n = self.cols.len();
        let mut i: usize = 0;
        while i < n
            invariant
                n == self.cols@.len(),
                i <= n,
                Schema::spec_col_named_from(self.cols@, name@, 0)
                    == Schema::spec_col_named_from(self.cols@, name@, i as int),
            decreases n - i,
        {
            if bytes_eq(&self.cols[i].name, name) {
                return Some(i);
            }
            i += 1;
        }
        None
    }
}

} // verus!
