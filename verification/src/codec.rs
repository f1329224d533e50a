//! Batch encoder/decoder. A fragment stores a batch column by column:
//! integers in a flat buffer, text as one byte buffer with an offsets
//! array, vectors as one flat element buffer. Decoding is deterministic
//! and restores the batch exactly.

use vstd::prelude::*;

verus! {

use vstd::arithmetic::mul::lemma_mul_inequality;

use crate::error::EncodingError;
use crate::schema::{ColumnDef, ColumnType, Schema};
use crate::value::{Value, ValueV, batch_view, row_view};

/// One column's storage buffers.
#[derive(Clone, Debug)]
pub enum ColumnData {
    /// One element per row.
    Int32(Vec<i32>),
    /// Row `i` is `bytes[offsets[i] .. offsets[i + 1]]`.
    Utf8 { offsets: Vec<usize>, bytes: Vec<u8> },
    /// Row `i` is elements `i * dim .. (i + 1) * dim`.
    Vector(Vec<i32>),
}

/// An immutable block of rows for one table. Only the tombstone bitmap
/// `live` may change after the fragment is written.
#[derive(Clone, Debug)]
pub struct Fragment {
    /// Row `i` of the fragment has row id `start_id + i`.
    pub start_id: u64,
    pub nrows: usize,
    pub cols: Vec<ColumnData>,
    /// `live[i]` is false once row `i` is tombstoned.
    pub live: Vec<bool>,
}

/// The buffers of one column are shaped for `n` rows of this type.
pub open spec fn col_wf(c: ColumnData, t: ColumnType, n: int) -> bool {
    match (c, t) {
        (ColumnData::Int32(v), ColumnType::Int32) => v@.len() == n,
        (ColumnData::Utf8 { offsets, bytes }, ColumnType::Utf8) => {
            &&& offsets@.len() == n + 1
            &&& offsets@[0] == 0
            &&& offsets@[n] == bytes@.len()
            &&& forall|i: int| 0 <= i < n ==> #[trigger] offsets@[i] <= offsets@[i + 1]
        },
        (ColumnData::Vector(v), ColumnType::FixedSizeVector(d)) => v@.len() == n * d,
        _ => false,
    }
}

/// The value stored for row `i` of a column.
pub open spec fn col_value_at(c: ColumnData, t: ColumnType, i: int) -> ValueV {
    match c {
        ColumnData::Int32(v) => ValueV::Int32(v@[i]),
        ColumnData::Utf8 { offsets, bytes } => ValueV::Utf8(
            bytes@.subrange(offsets@[i] as int, offsets@[i + 1] as int),
        ),
        ColumnData::Vector(v) => {
            let d = match t {
                ColumnType::FixedSizeVector(d0) => d0 as int,
                _ => 0,
            };
            ValueV::Vector(v@.subrange(i * d, (i + 1) * d))
        },
    }
}

/// Row `i` of a fragment, as stored.
pub open spec fn frag_row(f: Fragment, cols: Seq<ColumnDef>, i: int) -> Seq<ValueV> {
    Seq::new(cols.len(), |c: int| col_value_at(f.cols@[c], cols[c].ctype, i))
}

impl Fragment {
    /// The fragment's buffers are shaped for these columns, its tombstone
    /// bitmap covers every row, and its id range fits in 64 bits.
    pub open spec fn wf_for(self, cols: Seq<ColumnDef>) -> bool {
        &&& self.cols@.len() == cols.len()
        &&& self.live@.len() == self.nrows
        &&& self.start_id + self.nrows <= u64::MAX
        &&& forall|c: int|
            0 <= c < cols.len() ==> col_wf(self.cols@[c], cols[c].ctype, self.nrows as int)
    }

    /// All rows of the fragment, as stored.
    pub open spec fn spec_rows(self, cols: Seq<ColumnDef>) -> Seq<Seq<ValueV>> {
        Seq::new(self.nrows as nat, |i: int| frag_row(self, cols, i))
    }
}

/// If column `c` is a vector column, the value at `(r, c)` has exactly
/// its dimension.
pub open spec fn vector_sized_at(
    cols: Seq<ColumnDef>,
    b: Seq<Seq<ValueV>>,
    r: int,
    c: int,
) -> bool {
    match cols[c].ctype {
        ColumnType::FixedSizeVector(d) => (b[r][c] matches ValueV::Vector(v) ==> v.len() == d),
        _ => true,
    }
}

/// Every vector value in the batch has exactly its column's dimension.
pub open spec fn vectors_sized(cols: Seq<ColumnDef>, b: Seq<Seq<ValueV>>) -> bool {
    forall|r: int, c: int|
        0 <= r < b.len() && 0 <= c < cols.len() ==> #[trigger] vector_sized_at(cols, b, r, c)
}

/// The first row at or after `r` whose vector-column value does not have
/// dimension `d`.
pub open spec fn first_ragged_row(d: usize, vc: int, b: Seq<Seq<ValueV>>, r: int) -> Option<
    usize,
>
    decreases b.len() - r,
{
    if r < 0 || r >= b.len() {
        None
    } else if (b[r][vc] matches ValueV::Vector(v) && v.len() != d) {
        Some(r as usize)
    } else {
        first_ragged_row(d, vc, b, r + 1)
    }
}

/// In a well-formed column list the leftmost vector column is the only
/// one.
pub proof fn lemma_unique_vector_col(cols: Seq<ColumnDef>, c: int)
    requires
        crate::schema::wf_columns(cols),
        0 <= c < cols.len(),
        cols[c].ctype is FixedSizeVector,
    ensures
        Schema::spec_vector_col_from(cols, 0) == Some(c as usize),
{
    lemma_vector_col_prefix(cols, 0, c);
}

proof fn lemma_vector_col_prefix(cols: Seq<ColumnDef>, i: int, c: int)
    requires
        crate::schema::wf_columns(cols),
        0 <= i <= c < cols.len(),
        cols[c].ctype is FixedSizeVector,
        forall|j: int| 0 <= j < i ==> !(cols[j].ctype is FixedSizeVector),
    ensures
        Schema::spec_vector_col_from(cols, i) == Some(c as usize),
    decreases c - i,
{
    if cols[i].ctype is FixedSizeVector {
        if i != c {
            assert(crate::schema::vector_before(cols, c));
            assert(crate::schema::issue_at(cols, c) is Some);
            assert(false);
        }
    } else {
        lemma_vector_col_prefix(cols, i + 1, c);
    }
}

/// Encode a conforming batch into a fresh, fully live fragment whose
/// rows get ids `start_id ..`.
///
/// Succeeds exactly when every vector value has the column's dimension;
/// otherwise reports the first short or long vector.
#[verifier::loop_isolation(false)]
pub fn encode(schema: &Schema, batch: &Vec<Vec<Value>>, start_id: u64) -> (res: Result<
    Fragment,
    EncodingError,
>)
    requires
        schema.wf(),
        crate::schema::batch_conforms(schema.cols@, batch_view(batch@)),
        start_id + batch@.len() <= u64::MAX,
    ensures
        match res {
            Ok(f) => {
                &&& f.wf_for(schema.cols@)
                &&& f.start_id == start_id
                &&& f.nrows == batch@.len()
                &&& f.spec_rows(schema.cols@) == batch_view(batch@)
                &&& forall|i: int| 0 <= i < f.nrows ==> f.live@[i]
                &&& vectors_sized(schema.cols@, batch_view(batch@))
            },
            Err(e) => {
                &&& !vectors_sized(schema.cols@, batch_view(batch@))
                &&& match schema.spec_vector_col() {
                    Some(vc) => first_ragged_row(
                        schema.spec_vector_dim(),
                        vc as int,
                        batch_view(batch@),
                        0,
                    ) matches Some(rr) && e == (EncodingError::WrongVectorLength {
                        column: vc,
                        row: rr,
                    }),
                    None => false,
                }
            },
        },
{
    let ghost bview = batch_view(batch@);
    let nrows = batch.len();
    let ncols = schema.cols.len();
    proof {
        assert forall|r: int| 0 <= r < nrows implies crate::schema::row_conforms(
            schema.cols@,
            bview[r],
        ) by {}
    }
    let mut built: Vec<ColumnData> = Vec::new();
    let mut c: usize = 0;
    while c < ncols
        invariant
            built@.len() == c,
            c <= ncols,
            forall|cc: int|
                0 <= cc < c ==> col_wf(built@[cc], schema.cols@[cc].ctype, nrows as int),
            forall|cc: int, i: int|
                0 <= cc < c && 0 <= i < nrows ==> col_value_at(
                    built@[cc],
                    schema.cols@[cc].ctype,
                    i,
                ) == bview[i][cc],
        decreases ncols - c,
    {
        match schema.cols[c].ctype {
            ColumnType::Int32 => {
                let mut out: Vec<i32> = Vec::new();
                let mut r: usize = 0;
                while r < nrows
                    invariant
                        r <= nrows,
                        out@.len() == r,
                        forall|m: int| 0 <= m < r ==> ValueV::Int32(out@[m]) == bview[m][c as int],
                    decreases nrows - r,
                {
                    proof {
                        assert(bview[r as int][c as int] == batch@[r as int]@[c as int]@);
                    }
                    let x: i32 = match &batch[r][c] {
                        Value::Int32(n) => *n,
                        _ => {
                            proof {
                                assert(false);
                            }
                            0
                        },
                    };
                    out.push(x);
                    r += 1;
                }
                built.push(ColumnData::Int32(out));
            },
            ColumnType::Utf8 => {
                let mut offsets: Vec<usize> = Vec::new();
                let mut data: Vec<u8> = Vec::new();
                offsets.push(0);
                let mut r: usize = 0;
                while r < nrows
                    invariant
                        r <= nrows,
                        offsets@.len() == r + 1,
                        offsets@[0] == 0,
                        offsets@[r as int] == data@.len(),
                        forall|m: int| 0 <= m <= r ==> offsets@[m] <= data@.len(),
                        forall|m: int| 0 <= m < r ==> #[trigger] offsets@[m] <= offsets@[m + 1],
                        forall|m: int|
                            0 <= m < r ==> bview[m][c as int] == ValueV::Utf8(
                                data@.subrange(offsets@[m] as int, offsets@[m + 1] as int),
                            ),
                    decreases nrows - r,
                {
                    proof {
                        assert(bview[r as int][c as int] == batch@[r as int]@[c as int]@);
                    }
                    let s: &Vec<u8> = match &batch[r][c] {
                        Value::Utf8(s) => s,
                        _ => vstd::pervasive::unreached(),
                    };
                    let ghost data0 = data@;
                    let slen = s.len();
                    let mut k: usize = 0;
                    while k < slen
                        invariant
                            k <= slen,
                            data@ == data0 + s@.subrange(0, k as int),
                        decreases slen - k,
                    {
                        data.push(s[k]);
                        proof {
                            assert(data0 + s@.subrange(0, k as int) + seq![s@[k as int]]
                                =~= data0 + s@.subrange(0, k as int + 1));
                        }
                        k += 1;
                    }
                    proof {
                        assert(s@.subrange(0, slen as int) =~= s@);
                    }
                    offsets.push(data.len());
                    proof {
                        assert forall|m: int|
                            0 <= m < r + 1 implies bview[m][c as int] == ValueV::Utf8(
                            data@.subrange(offsets@[m] as int, offsets@[m + 1] as int),
                        ) by {
                            if m < r {
                                assert(data@.subrange(offsets@[m] as int, offsets@[m + 1] as int)
                                    =~= data0.subrange(
                                    offsets@[m] as int,
                                    offsets@[m + 1] as int,
                                ));
                            } else {
                                assert(data@.subrange(offsets@[m] as int, offsets@[m + 1] as int)
                                    =~= s@);
                            }
                        }
                    }
                    r += 1;
                }
                built.push(ColumnData::Utf8 { offsets, bytes: data });
            },
            ColumnType::FixedSizeVector(d) => {
                let mut flat: Vec<i32> = Vec::new();
                let mut r: usize = 0;
                while r < nrows
                    invariant
                        r <= nrows,
                        flat@.len() == r * d,
                        forall|m: int|
                            0 <= m < r ==> bview[m][c as int] == ValueV::Vector(
                                flat@.subrange(m * d, (m + 1) * d),
                            ),
                        first_ragged_row(d, c as int, bview, 0) == first_ragged_row(
                            d,
                            c as int,
                            bview,
                            r as int,
                        ),
                    decreases nrows - r,
                {
                    proof {
                        assert(bview[r as int][c as int] == batch@[r as int]@[c as int]@);
                    }
                    let v: &Vec<i32> = match &batch[r][c] {
                        Value::Vector(v) => v,
                        _ => vstd::pervasive::unreached(),
                    };
                    if v.len() != d {
                        proof {
                            assert(first_ragged_row(d, c as int, bview, r as int) == Some(
                                r,
                            ));
                            lemma_unique_vector_col(schema.cols@, c as int);
                            assert(!vector_sized_at(schema.cols@, bview, r as int, c as int));
                            assert(!vectors_sized(schema.cols@, bview));
                        }
                        return Err(EncodingError::WrongVectorLength { column: c, row: r });
                    }
                    let ghost flat0 = flat@;
                    let mut k: usize = 0;
                    while k < d
                        invariant
                            k <= d,
                            flat@ == flat0 + v@.subrange(0, k as int),
                        decreases d - k,
                    {
                        flat.push(v[k]);
                        proof {
                            assert(flat0 + v@.subrange(0, k as int) + seq![v@[k as int]]
                                =~= flat0 + v@.subrange(0, k as int + 1));
                        }
                        k += 1;
                    }
                    proof {
                        assert(v@.subrange(0, d as int) =~= v@);
                        assert((r + 1) * d == r * d + d) by (nonlinear_arith);
                        assert forall|m: int|
                            0 <= m < r + 1 implies bview[m][c as int] == ValueV::Vector(
                            flat@.subrange(m * d, (m + 1) * d),
                        ) by {
                            assert((m + 1) * d == m * d + d) by (nonlinear_arith);
                            if m < r {
                                lemma_mul_inequality(m + 1, r as int, d as int);
                                assert(flat@.subrange(m * d, (m + 1) * d) =~= flat0.subrange(
                                    m * d,
                                    (m + 1) * d,
                                ));
                            } else {
                                assert(flat@.subrange(m * d, (m + 1) * d) =~= v@);
                            }
                        }
                    }
                    r += 1;
                }
                built.push(ColumnData::Vector(flat));
            },
        }
        c += 1;
    }
    let mut live: Vec<bool> = Vec::new();
    let mut i: usize = 0;
    while i < nrows
        invariant
            i <= nrows,
            live@.len() == i,
            forall|m: int| 0 <= m < i ==> live@[m],
        decreases nrows - i,
    {
        live.push(true);
        i += 1;
    }
    let f = Fragment { start_id, nrows, cols: built, live };
    proof {
        assert forall|r: int, cc: int|
            0 <= r < bview.len() && 0 <= cc < schema.cols@.len() implies #[trigger] vector_sized_at(
            schema.cols@,
            bview,
            r,
            cc,
        ) by {
            match schema.cols@[cc].ctype {
                ColumnType::FixedSizeVector(dd) => {
                    assert(bview[r][cc] == col_value_at(f.cols@[cc], schema.cols@[cc].ctype, r));
                    assert((r + 1) * dd == r * dd + dd) by (nonlinear_arith);
                    lemma_mul_inequality(r + 1, nrows as int, dd as int);
                    assert(col_wf(f.cols@[cc], schema.cols@[cc].ctype, nrows as int));
                },
                _ => {},
            }
        }
        assert forall|r: int| 0 <= r < nrows implies f.spec_rows(schema.cols@)[r] == bview[r] by {
            assert(frag_row(f, schema.cols@, r) =~= bview[r]);
        }
        assert(f.spec_rows(schema.cols@) =~= bview);
    }
    Ok(f)
}

/// Adjacent monotonicity of offsets extends to any pair.
pub proof fn lemma_offsets_chain(offsets: Seq<usize>, n: int, i: int, j: int)
    requires
        offsets.len() == n + 1,
        forall|m: int| 0 <= m < n ==> #[trigger] offsets[m] <= offsets[m + 1],
        0 <= i <= j <= n,
    ensures
        offsets[i] <= offsets[j],
    decreases j - i,
{
    if i < j {
        lemma_offsets_chain(offsets, n, i + 1, j);
    }
}

/// Decode one stored row.
#[verifier::loop_isolation(false)]
pub fn decode_row(f: &Fragment, schema: &Schema, i: usize) -> (out: Vec<Value>)
    requires
        f.wf_for(schema.cols@),
        i < f.nrows,
    ensures
        row_view(out@) == frag_row(*f, schema.cols@, i as int),
{
    let ncols = schema.cols.len();
    let mut out: Vec<Value> = Vec::new();
    let mut c: usize = 0;
    while c < ncols
        invariant
            c <= ncols,
            out@.len() == c,
            forall|cc: int|
                0 <= cc < c ==> out@[cc]@ == col_value_at(
                    f.cols@[cc],
                    schema.cols@[cc].ctype,
                    i as int,
                ),
        decreases ncols - c,
    {
        proof {
            assert(col_wf(f.cols@[c as int], schema.cols@[c as int].ctype, f.nrows as int));
        }
        match &f.cols[c] {
            ColumnData::Int32(v) => {
                out.push(Value::Int32(v[i]));
            },
            ColumnData::Utf8 { offsets, bytes } => {
                proof {
                    lemma_offsets_chain(offsets@, f.nrows as int, i as int, i as int + 1);
                    lemma_offsets_chain(offsets@, f.nrows as int, i as int + 1, f.nrows as int);
                }
                let lo = offsets[i];
                let hi = offsets[i + 1];
                let mut buf: Vec<u8> = Vec::new();
                let mut k: usize = lo;
                while k < hi
                    invariant
                        lo <= k <= hi,
                        buf@ == bytes@.subrange(lo as int, k as int),
                    decreases hi - k,
                {
                    buf.push(bytes[k]);
                    proof {
                        assert(bytes@.subrange(lo as int, k as int) + seq![bytes@[k as int]]
                            =~= bytes@.subrange(lo as int, k as int + 1));
                    }
                    k += 1;
                }
                out.push(Value::Utf8(buf));
            },
            ColumnData::Vector(v) => {
                let d: usize = match schema.cols[c].ctype {
                    ColumnType::FixedSizeVector(d0) => d0,
                    _ => {
                        proof {
                            assert(false);
                        }
                        0
                    },
                };
                let vlen = v.len();
                proof {
                    lemma_mul_inequality(i as int + 1, f.nrows as int, d as int);
                    assert((i + 1) * d == i * d + d) by (nonlinear_arith);
                    assert(vlen == f.nrows * d);
                }
                let start: usize = i * d;
                let mut buf: Vec<i32> = Vec::new();
                let mut k: usize = 0;
                while k < d
                    invariant
                        k <= d,
                        buf@ == v@.subrange(start as int, start as int + k),
                    decreases d - k,
                {
                    buf.push(v[start + k]);
                    proof {
                        assert(v@.subrange(start as int, start as int + k) + seq![
                            v@[start as int + k],
                        ] =~= v@.subrange(start as int, start as int + k + 1));
                    }
                    k += 1;
                }
                proof {
                    assert(buf@ == v@.subrange(i as int * d, (i as int + 1) * d));
                }
                out.push(Value::Vector(buf));
            },
        }
        c += 1;
    }
    proof {
        assert(row_view(out@) =~= frag_row(*f, schema.cols@, i as int));
    }
    out
}

/// Decode every stored row of a fragment, tombstoned or not, in order.
/// Re-decoding is deterministic: the result is pinned by the buffers.
#[verifier::loop_isolation(false)]
pub fn decode(f: &Fragment, schema: &Schema) -> (out: Vec<Vec<Value>>)
    requires
        f.wf_for(schema.cols@),
    ensures
        batch_view(out@) == f.spec_rows(schema.cols@),
{
    let n = f.nrows;
    let mut out: Vec<Vec<Value>> = Vec::new();
    let mut i: usize = 0;
    while i < n
        invariant
            i <= n,
            out@.len() == i,
            forall|m: int|
                0 <= m < i ==> row_view(out@[m]@) == frag_row(*f, schema.cols@, m),
        decreases n - i,
    {
        let row = decode_row(f, schema, i);
        out.push(row);
        i += 1;
    }
    proof {
        assert(batch_view(out@) =~= f.spec_rows(schema.cols@));
    }
    out
}

/// Every stored row conforms to the columns it was encoded under.
pub proof fn lemma_frag_row_conforms(f: Fragment, cols: Seq<ColumnDef>, i: int)
    requires
        f.wf_for(cols),
        0 <= i < f.nrows,
    ensures
        crate::schema::row_conforms(cols, frag_row(f, cols, i)),
{
    assert forall|c: int| 0 <= c < cols.len() implies crate::schema::kind_matches(
        frag_row(f, cols, i)[c],
        cols[c].ctype,
    ) by {
        assert(col_wf(f.cols@[c], cols[c].ctype, f.nrows as int));
    }
}

/// Round trip: a batch encoded into a fragment and decoded again is
/// returned unchanged. `encode` guarantees the stored rows equal the
/// batch; `decode` guarantees its result equals the stored rows.
pub proof fn lemma_round_trip(
    schema: Schema,
    b: Seq<Seq<ValueV>>,
    f: Fragment,
    out: Seq<Seq<ValueV>>,
)
    requires
        f.spec_rows(schema.cols@) == b,
        out == f.spec_rows(schema.cols@),
    ensures
        out == b,
{
}

} // verus!
