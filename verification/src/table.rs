//! One table: an immutable schema, an append-only list of fragments,
//! an optional vector index, and a dropped flag. Every mutating
//! operation is all-or-nothing: it either returns an error and leaves
//! the table exactly as it was, or performs the whole change.

use vstd::prelude::*;

verus! {

use crate::codec::{Fragment, decode_row, encode, frag_row};
use crate::error::Error;
use crate::predicate::{CmpV, Predicate, dnf_wf, pred_holds};
use crate::schema::{ColumnDef, Schema};
use crate::value::{Value, ValueV, row_view};

/// A nearest-neighbour index snapshot: the coordinates of the rows that
/// were live when it was built, over the fragments that existed then.
pub struct VecIndex {
    /// `(fragment, offset)` pairs in strictly increasing order.
    pub entries: Vec<(usize, usize)>,
    /// Fragments below this count are covered by the index; later
    /// fragments are newer than the snapshot.
    pub watermark: usize,
}

/// Rows in fragments `0 .. f`.
pub open spec fn rows_below(frags: Seq<Fragment>, f: int) -> int
    decreases f,
{
    if f <= 0 {
        0
    } else {
        rows_below(frags, f - 1) + frags[f - 1].nrows
    }
}

/// Live (not tombstoned) entries of one bitmap prefix.
pub open spec fn live_upto(live: Seq<bool>, o: int) -> int
    decreases o,
{
    if o <= 0 {
        0
    } else {
        live_upto(live, o - 1) + if live[o - 1] {
            1int
        } else {
            0int
        }
    }
}

/// Live rows in fragments `0 .. f`.
pub open spec fn live_below(frags: Seq<Fragment>, f: int) -> int
    decreases f,
{
    if f <= 0 {
        0
    } else {
        live_below(frags, f - 1) + live_upto(frags[f - 1].live@, frags[f - 1].live@.len() as int)
    }
}

/// All live rows of the table.
pub open spec fn live_count(frags: Seq<Fragment>) -> int {
    live_below(frags, frags.len() as int)
}

/// `(f, o)` is a coordinate of a live row.
pub open spec fn live_at(frags: Seq<Fragment>, f: int, o: int) -> bool {
    &&& 0 <= f < frags.len()
    &&& 0 <= o < frags[f].nrows
    &&& frags[f].live@[o]
}

/// The index covers every row below its watermark that is still live:
/// a row, once tombstoned, never comes back, so rows missing from the
/// snapshot are dead.
pub open spec fn index_wf(ix: VecIndex, frags: Seq<Fragment>) -> bool {
    &&& ix.watermark <= frags.len()
    &&& forall|j: int|
        0 <= j < ix.entries@.len() ==> (#[trigger] ix.entries@[j]).0 < ix.watermark
            && ix.entries@[j].1 < frags[ix.entries@[j].0 as int].nrows
    &&& forall|j: int|
        0 <= j && j + 1 < ix.entries@.len() ==> ((#[trigger] ix.entries@[j]).0 < ix.entries@[j
            + 1].0 || (ix.entries@[j].0 == ix.entries@[j + 1].0 && ix.entries@[j].1
            < ix.entries@[j + 1].1))
    &&& forall|f: int, o: int|
        f < ix.watermark && #[trigger] live_at(frags, f, o) ==> ix.entries@.contains(
            (f as usize, o as usize),
        )
}

/// One table of a database.
pub struct Table {
    pub name: Vec<u8>,
    pub schema: Schema,
    pub frags: Vec<Fragment>,
    pub index: Option<VecIndex>,
    /// Set once the table is dropped; every later operation is refused.
    pub dropped: bool,
    /// The next row id to assign; equals the number of rows ever stored.
    pub next_id: u64,
}

impl Table {
    /// Fragments are shaped for the schema, their id ranges partition
    /// `0 .. next_id` in order, and any index covers its fragments.
    pub open spec fn wf(self) -> bool {
        &&& self.schema.wf()
        &&& forall|f: int|
            0 <= f < self.frags@.len() ==> (#[trigger] self.frags@[f]).wf_for(self.schema.cols@)
        &&& forall|f: int|
            0 <= f < self.frags@.len() ==> (#[trigger] self.frags@[f]).start_id == rows_below(
                self.frags@,
                f,
            )
        &&& self.next_id == rows_below(self.frags@, self.frags@.len() as int)
        &&& self.next_id <= u64::MAX
        &&& match self.index {
            Some(ix) => index_wf(ix, self.frags@),
            None => true,
        }
    }

    /// A fresh, empty table over a validated schema.
    pub fn create(name: Vec<u8>, schema: Schema) -> (t: Table)
        requires
            schema.wf(),
        ensures
            t.wf(),
            t.name@ == name@,
            t.schema == schema,
            t.frags@.len() == 0,
            t.index is None,
            !t.dropped,
            t.next_id == 0,
    {
        Table { name, schema, frags: Vec::new(), index: None, dropped: false, next_id: 0 }
    }

    /// The number of rows ever stored, tombstoned or not.
    pub fn stored_row_count(&self) -> (n: u64)
        ensures
            n == self.next_id,
    {
        self.next_id
    }

    /// Append a batch as one new fragment. All-or-nothing: on any error
    /// the table is unchanged. Does not rebuild the vector index; rows
    /// added after a build are newer than its watermark.
    ///
    /// Returns the updated stored row count. Fails with `TableDropped`
    /// after a drop, with the schema mismatch of the first bad row if
    /// the batch does not conform, and with the first wrong vector
    /// length if a vector value has the wrong dimension.
    pub fn add(&mut self, batch: &Vec<Vec<Value>>) -> (r: Result<u64, Error>)
        requires
            old(self).wf(),
            old(self).next_id + batch@.len() <= u64::MAX,
        ensures
            final(self).wf(),
            match r {
                Ok(n) => {
                    &&& !old(self).dropped
                    &&& crate::schema::batch_conforms(
                        old(self).schema.cols@,
                        crate::value::batch_view(batch@),
                    )
                    &&& crate::codec::vectors_sized(
                        old(self).schema.cols@,
                        crate::value::batch_view(batch@),
                    )
                    &&& final(self).frags@.len() == old(self).frags@.len() + 1
                    &&& final(self).frags@.drop_last() == old(self).frags@
                    &&& final(self).frags@.last().spec_rows(old(self).schema.cols@)
                        == crate::value::batch_view(batch@)
                    &&& final(self).frags@.last().nrows == batch@.len()
                    &&& final(self).frags@.last().start_id == old(self).next_id
                    &&& (forall|o: int|
                        0 <= o < batch@.len() ==> final(self).frags@.last().live@[o])
                    &&& final(self).next_id == old(self).next_id + batch@.len()
                    &&& n == final(self).next_id
                    &&& final(self).schema == old(self).schema
                    &&& final(self).name == old(self).name
                    &&& final(self).index == old(self).index
                    &&& final(self).dropped == old(self).dropped
                },
                Err(e) => {
                    &&& *final(self) == *old(self)
                    &&& if old(self).dropped {
                        e == Error::TableDropped
                    } else {
                        match crate::schema::first_batch_issue_from(
                            old(self).schema.cols@,
                            crate::value::batch_view(batch@),
                            0,
                        ) {
                            Some(se) => e == Error::Schema(se),
                            None => match old(self).schema.spec_vector_col() {
                                Some(vc) => crate::codec::first_ragged_row(
                                    old(self).schema.spec_vector_dim(),
                                    vc as int,
                                    crate::value::batch_view(batch@),
                                    0,
                                ) matches Some(rr) && e == Error::Encoding(
                                    crate::error::EncodingError::WrongVectorLength {
                                        column: vc,
                                        row: rr,
                                    },
                                ),
                                None => false,
                            },
                        }
                    }
                },
            },
    {
        if self.dropped {
            return Err(Error::TableDropped);
        }
        match self.schema.validate_batch(batch) {
            Err(se) => {
                return Err(Error::Schema(se));
            },
            Ok(_) => {},
        }
        proof {
            assert forall|r: int|
                0 <= r < crate::value::batch_view(batch@).len() implies crate::schema::row_conforms(
                self.schema.cols@,
                crate::value::batch_view(batch@)[r],
            ) by {
                crate::schema::lemma_row_issue_conforms(
                    self.schema.cols@,
                    crate::value::batch_view(batch@)[r],
                );
            }
        }
        let frag = match encode(&self.schema, batch, self.next_id) {
            Err(ee) => {
                proof {
                    lemma_conforming_batch_no_issue(
                        self.schema.cols@,
                        crate::value::batch_view(batch@),
                    );
                }
                return Err(Error::Encoding(ee));
            },
            Ok(f) => f,
        };
        let n = batch.len();
        let ghost frags0 = self.frags@;
        self.frags.push(frag);
        self.next_id = self.next_id + n as u64;
        proof {
            lemma_conforming_batch_no_issue(
                self.schema.cols@,
                crate::value::batch_view(batch@),
            );
            assert(self.frags@.drop_last() =~= frags0);
            lemma_rows_below_push(frags0, self.frags@.last());
            assert forall|f: int|
                0 <= f < self.frags@.len() implies (#[trigger] self.frags@[f]).start_id
                == rows_below(self.frags@, f) by {
                lemma_rows_below_prefix_eq(frags0, self.frags@, f);
            }
            match &self.index {
                Some(ix) => {
                    assert forall|f: int, o: int|
                        f < ix.watermark && #[trigger] live_at(self.frags@, f, o)
                        implies ix.entries@.contains((f as usize, o as usize)) by {
                        assert(live_at(frags0, f, o));
                    }
                },
                None => {},
            }
        }
        Ok(self.next_id)
    }
}

/// The counted live prefix is between zero and its length.
pub proof fn lemma_live_upto_le(live: Seq<bool>, o: int)
    requires
        o >= 0,
    ensures
        0 <= live_upto(live, o) <= o,
    decreases o,
{
    if o > 0 {
        lemma_live_upto_le(live, o - 1);
    }
}

/// Counting a live prefix reads only that prefix.
pub proof fn lemma_live_upto_prefix(a: Seq<bool>, b: Seq<bool>, o: int)
    requires
        forall|m: int| 0 <= m < o ==> a[m] == b[m],
    ensures
        live_upto(a, o) == live_upto(b, o),
    decreases o,
{
    if o > 0 {
        lemma_live_upto_prefix(a, b, o - 1);
    }
}

/// Live rows never exceed stored rows.
pub proof fn lemma_live_below_le(frags: Seq<Fragment>, f: int)
    requires
        0 <= f <= frags.len(),
        forall|i: int| 0 <= i < frags.len() ==> (#[trigger] frags[i]).live@.len() == frags[i].nrows,
    ensures
        0 <= live_below(frags, f) <= rows_below(frags, f),
    decreases f,
{
    if f > 0 {
        lemma_live_below_le(frags, f - 1);
        lemma_live_upto_le(frags[f - 1].live@, frags[f - 1].live@.len() as int);
    }
}

/// Prefix row counts grow with the prefix.
pub proof fn lemma_rows_below_mono(frags: Seq<Fragment>, f: int, g: int)
    requires
        0 <= f <= g <= frags.len(),
    ensures
        rows_below(frags, f) <= rows_below(frags, g),
    decreases g,
{
    if f < g {
        lemma_rows_below_mono(frags, f, g - 1);
    }
}

/// Counting live rows below `f` reads only fragments below `f`.
pub proof fn lemma_live_below_prefix_eq(a: Seq<Fragment>, b: Seq<Fragment>, f: int)
    requires
        forall|i: int| 0 <= i < f ==> a[i] == b[i],
    ensures
        live_below(a, f) == live_below(b, f),
    decreases f,
{
    if f > 0 {
        lemma_live_below_prefix_eq(a, b, f - 1);
    }
}

/// A conforming batch has no schema issue to report.
pub proof fn lemma_conforming_batch_no_issue(cols: Seq<ColumnDef>, b: Seq<Seq<ValueV>>)
    requires
        crate::schema::batch_conforms(cols, b),
    ensures
        crate::schema::first_batch_issue_from(cols, b, 0) is None,
{
    crate::schema::lemma_first_batch_issue_none(cols, b, 0);
    assert forall|r: int| 0 <= r < b.len() implies crate::schema::row_issue(cols, b[r], 0)
        is None by {
        crate::schema::lemma_row_issue_conforms(cols, b[r]);
    }
}

/// How a fragment looks after tombstoning the rows a predicate
/// matches: the stored data is untouched, and a row stays live exactly
/// when it was live and does not match.
pub open spec fn tombstoned_frag(
    oldf: Fragment,
    newf: Fragment,
    cols: Seq<ColumnDef>,
    p: Seq<Seq<CmpV>>,
) -> bool {
    &&& newf.start_id == oldf.start_id
    &&& newf.nrows == oldf.nrows
    &&& newf.cols == oldf.cols
    &&& newf.live@.len() == oldf.live@.len()
    &&& forall|o: int|
        0 <= o < oldf.nrows ==> newf.live@[o] == (oldf.live@[o] && !pred_holds(
            p,
            frag_row(oldf, cols, o),
        ))
}

/// An optional filter: absent means every row passes.
pub open spec fn opt_pred_holds(p: Option<Seq<Seq<CmpV>>>, row: Seq<ValueV>) -> bool {
    match p {
        Some(d) => pred_holds(d, row),
        None => true,
    }
}

/// The rows a scan yields from one fragment, offsets `o` on: the live
/// rows that pass the filter, in offset order, with their row ids.
pub open spec fn frag_scan_from(
    f: Fragment,
    cols: Seq<ColumnDef>,
    p: Option<Seq<Seq<CmpV>>>,
    o: int,
) -> Seq<(u64, Seq<ValueV>)>
    decreases f.nrows - o,
{
    if o < 0 || o >= f.nrows {
        Seq::empty()
    } else {
        let rest = frag_scan_from(f, cols, p, o + 1);
        if f.live@[o] && opt_pred_holds(p, frag_row(f, cols, o)) {
            seq![((f.start_id + o) as u64, frag_row(f, cols, o))] + rest
        } else {
            rest
        }
    }
}

/// The rows a scan yields from fragment `fi` on.
pub open spec fn scan_from(
    frags: Seq<Fragment>,
    cols: Seq<ColumnDef>,
    p: Option<Seq<Seq<CmpV>>>,
    fi: int,
) -> Seq<(u64, Seq<ValueV>)>
    decreases frags.len() - fi,
{
    if fi < 0 || fi >= frags.len() {
        Seq::empty()
    } else {
        frag_scan_from(frags[fi], cols, p, 0) + scan_from(frags, cols, p, fi + 1)
    }
}

/// A scan result as abstract rows.
pub open spec fn scan_view(rows: Seq<(u64, Vec<Value>)>) -> Seq<(u64, Seq<ValueV>)> {
    rows.map_values(|e: (u64, Vec<Value>)| (e.0, row_view(e.1@)))
}

/// Appending a fragment leaves earlier prefix row counts unchanged.
pub proof fn lemma_rows_below_prefix_eq(frags: Seq<Fragment>, longer: Seq<Fragment>, f: int)
    requires
        frags.len() <= longer.len(),
        forall|i: int| 0 <= i < frags.len() ==> frags[i] == longer[i],
        0 <= f <= frags.len(),
    ensures
        rows_below(frags, f) == rows_below(longer, f),
    decreases f,
{
    if f > 0 {
        lemma_rows_below_prefix_eq(frags, longer, f - 1);
    }
}

/// The row count of a pushed sequence is the old count plus the new
/// fragment's rows.
pub proof fn lemma_rows_below_push(frags: Seq<Fragment>, f: Fragment)
    ensures
        rows_below(frags.push(f), frags.len() as int + 1) == rows_below(
            frags,
            frags.len() as int,
        ) + f.nrows,
    decreases frags.len(),
{
    lemma_rows_below_prefix_eq(frags, frags.push(f), frags.len() as int);
}

/// Prefix row counts depend only on the fragments' row counts.
pub proof fn lemma_rows_below_eq_nrows(a: Seq<Fragment>, b: Seq<Fragment>, f: int)
    requires
        forall|i: int| 0 <= i < f ==> (#[trigger] a[i]).nrows == b[i].nrows,
    ensures
        rows_below(a, f) == rows_below(b, f),
    decreases f,
{
    if f > 0 {
        lemma_rows_below_eq_nrows(a, b, f - 1);
    }
}

impl Table {
    /// Tombstone every live row the predicate matches. All-or-nothing:
    /// on any error the table is unchanged; otherwise every matching
    /// live row is marked dead, no data is removed, and the count of
    /// newly tombstoned rows is returned.
    ///
    /// Fails with `TableDropped` after a drop, and with the predicate
    /// text's leftmost syntax, unknown-column or type error otherwise.
    #[verifier::loop_isolation(false)]
    pub fn delete(&mut self, pred_text: &Vec<u8>) -> (r: Result<u64, Error>)
        requires
            old(self).wf(),
        ensures
            final(self).wf(),
            match r {
                Ok(c) => {
                    &&& !old(self).dropped
                    &&& crate::predicate::spec_parse_predicate(
                        pred_text@,
                        old(self).schema.cols@,
                    ) is Ok
                    &&& {
                        let p = crate::predicate::spec_parse_predicate(
                            pred_text@,
                            old(self).schema.cols@,
                        )->Ok_0;
                        &&& final(self).frags@.len() == old(self).frags@.len()
                        &&& forall|f: int|
                            0 <= f < old(self).frags@.len() ==> tombstoned_frag(
                                old(self).frags@[f],
                                #[trigger] final(self).frags@[f],
                                old(self).schema.cols@,
                                p,
                            )
                        &&& c == live_count(old(self).frags@) - live_count(final(self).frags@)
                    }
                    &&& final(self).schema == old(self).schema
                    &&& final(self).name == old(self).name
                    &&& final(self).next_id == old(self).next_id
                    &&& final(self).dropped == old(self).dropped
                    &&& final(self).index == old(self).index
                },
                Err(e) => {
                    &&& *final(self) == *old(self)
                    &&& if old(self).dropped {
                        e == Error::TableDropped
                    } else {
                        match crate::predicate::spec_parse_predicate(
                            pred_text@,
                            old(self).schema.cols@,
                        ) {
                            Err(pe) => e == Error::Predicate(pe),
                            Ok(_) => false,
                        }
                    }
                },
            },
    {
        if self.dropped {
            return Err(Error::TableDropped);
        }
        let pred = match crate::predicate::parse_predicate(pred_text, &self.schema) {
            Err(pe) => {
                return Err(Error::Predicate(pe));
            },
            Ok(p) => p,
        };
        let ghost p = pred@;
        let ghost cols = self.schema.cols@;
        let nf = self.frags.len();
        let mut count: u64 = 0;
        let mut f: usize = 0;
        while f < nf
            invariant
                f <= nf,
                nf == self.frags@.len() == old(self).frags@.len(),
                self.schema == old(self).schema,
                self.name == old(self).name,
                self.next_id == old(self).next_id,
                self.dropped == old(self).dropped,
                self.index == old(self).index,
                forall|ff: int| f <= ff < nf ==> self.frags@[ff] == old(self).frags@[ff],
                forall|ff: int|
                    0 <= ff < f ==> tombstoned_frag(
                        old(self).frags@[ff],
                        #[trigger] self.frags@[ff],
                        cols,
                        p,
                    ),
                count == live_below(old(self).frags@, f as int) - live_below(
                    self.frags@,
                    f as int,
                ),
                count <= rows_below(old(self).frags@, f as int),
            decreases nf - f,
        {
            let ghost outer_frags = self.frags@;
            let ghost oldf = old(self).frags@[f as int];
            let ghost c0 = count as int;
            let nrows = self.frags[f].nrows;
            proof {
                assert(oldf.wf_for(cols));
                lemma_rows_below_mono(old(self).frags@, f as int + 1, nf as int);
                lemma_live_below_le(old(self).frags@, f as int);
            }
            let mut o: usize = 0;
            while o < nrows
                invariant
                    o <= nrows,
                    nrows == oldf.nrows,
                    self.frags@.len() == nf,
                    self.schema == old(self).schema,
                    self.name == old(self).name,
                    self.next_id == old(self).next_id,
                    self.dropped == old(self).dropped,
                    self.index == old(self).index,
                    forall|ff: int| 0 <= ff < nf && ff != f ==> self.frags@[ff] == outer_frags[ff],
                    self.frags@[f as int].start_id == oldf.start_id,
                    self.frags@[f as int].nrows == oldf.nrows,
                    self.frags@[f as int].cols == oldf.cols,
                    self.frags@[f as int].live@.len() == oldf.live@.len(),
                    forall|oo: int|
                        o <= oo < nrows ==> #[trigger] self.frags@[f as int].live@[oo]
                            == oldf.live@[oo],
                    forall|oo: int|
                        0 <= oo < o ==> #[trigger] self.frags@[f as int].live@[oo] == (
                        oldf.live@[oo] && !pred_holds(p, frag_row(oldf, cols, oo))),
                    count == c0 + live_upto(oldf.live@, o as int) - live_upto(
                        self.frags@[f as int].live@,
                        o as int,
                    ),
                    c0 + live_upto(oldf.live@, o as int) - live_upto(
                        self.frags@[f as int].live@,
                        o as int,
                    ) <= rows_below(old(self).frags@, f as int) + o,
                decreases nrows - o,
            {
                proof {
                    lemma_live_upto_le(oldf.live@, o as int);
                    lemma_live_upto_le(self.frags@[f as int].live@, o as int);
                }
                let is_live = self.frags[f].live[o];
                if is_live {
                    proof {
                        assert(self.frags@[f as int].wf_for(cols));
                    }
                    let row = decode_row(&self.frags[f], &self.schema, o);
                    proof {
                        crate::codec::lemma_frag_row_conforms(
                            self.frags@[f as int],
                            cols,
                            o as int,
                        );
                        assert(frag_row(self.frags@[f as int], cols, o as int) =~= frag_row(
                            oldf,
                            cols,
                            o as int,
                        ));
                        crate::predicate::lemma_wf_compatible(
                            p,
                            cols,
                            frag_row(oldf, cols, o as int),
                        );
                    }
                    if crate::predicate::evaluate(&pred, &row) {
                        let ghost before = self.frags@[f as int].live@;
                        self.frags[f].live[o] = false;
                        count = count + 1;
                        proof {
                            lemma_live_upto_prefix(
                                before,
                                self.frags@[f as int].live@,
                                o as int,
                            );
                        }
                    }
                }
                o += 1;
            }
            proof {
                lemma_live_below_prefix_eq(outer_frags, self.frags@, f as int);
                assert(tombstoned_frag(oldf, self.frags@[f as int], cols, p));
                assert forall|ff: int|
                    0 <= ff < f + 1 implies tombstoned_frag(
                    old(self).frags@[ff],
                    #[trigger] self.frags@[ff],
                    cols,
                    p,
                ) by {
                    if ff < f {
                        assert(self.frags@[ff] == outer_frags[ff]);
                        assert(tombstoned_frag(old(self).frags@[ff], outer_frags[ff], cols, p));
                    }
                }
            }
            f += 1;
        }
        proof {
            assert forall|ff: int|
                0 <= ff < nf implies (#[trigger] self.frags@[ff]).wf_for(cols) by {
                assert(tombstoned_frag(old(self).frags@[ff], self.frags@[ff], cols, p));
                assert(old(self).frags@[ff].wf_for(cols));
            }
            assert forall|ff: int|
                0 <= ff < nf implies (#[trigger] self.frags@[ff]).start_id == rows_below(
                self.frags@,
                ff,
            ) by {
                lemma_rows_below_eq_nrows(old(self).frags@, self.frags@, ff);
            }
            lemma_rows_below_eq_nrows(old(self).frags@, self.frags@, nf as int);
            match &self.index {
                Some(ix) => {
                    assert forall|ff: int, o: int|
                        ff < ix.watermark && #[trigger] live_at(self.frags@, ff, o)
                        implies ix.entries@.contains((ff as usize, o as usize)) by {
                        assert(tombstoned_frag(old(self).frags@[ff], self.frags@[ff], cols, p));
                        assert(live_at(old(self).frags@, ff, o));
                    }
                },
                None => {},
            }
        }
        Ok(count)
    }

    /// Every live row, in fragment order and offset order, with its row
    /// id, filtered by an optional predicate. Read-only and
    /// deterministic: re-scanning yields the same rows.
    #[verifier::loop_isolation(false)]
    pub fn scan(&self, pred: Option<&Predicate>) -> (r: Result<Vec<(u64, Vec<Value>)>, Error>)
        requires
            self.wf(),
            pred matches Some(p) ==> dnf_wf(p@, self.schema.cols@),
        ensures
            match r {
                Ok(rows) => !self.dropped && scan_view(rows@) == scan_from(
                    self.frags@,
                    self.schema.cols@,
                    match pred {
                        Some(p) => Some(p@),
                        None => None,
                    },
                    0,
                ),
                Err(e) => self.dropped && e == Error::TableDropped,
            },
    {
        if self.dropped {
            return Err(Error::TableDropped);
        }
        let ghost cols = self.schema.cols@;
        let ghost pv: Option<Seq<Seq<CmpV>>> = match pred {
            Some(p) => Some(p@),
            None => None,
        };
        let nf = self.frags.len();
        let mut out: Vec<(u64, Vec<Value>)> = Vec::new();
        proof {
            assert(scan_view(out@) =~= Seq::<(u64, Seq<ValueV>)>::empty());
        }
        let mut f: usize = 0;
        while f < nf
            invariant
                f <= nf,
                nf == self.frags@.len(),
                scan_from(self.frags@, cols, pv, 0) == scan_view(out@) + scan_from(
                    self.frags@,
                    cols,
                    pv,
                    f as int,
                ),
            decreases nf - f,
        {
            let frag = &self.frags[f];
            let nrows = frag.nrows;
            let mut o: usize = 0;
            while o < nrows
                invariant
                    o <= nrows,
                    nrows == frag.nrows,
                    scan_from(self.frags@, cols, pv, 0) == scan_view(out@) + frag_scan_from(
                        self.frags@[f as int],
                        cols,
                        pv,
                        o as int,
                    ) + scan_from(self.frags@, cols, pv, f as int + 1),
                decreases nrows - o,
            {
                if frag.live[o] {
                    let row = decode_row(frag, &self.schema, o);
                    proof {
                        crate::codec::lemma_frag_row_conforms(
                            self.frags@[f as int],
                            cols,
                            o as int,
                        );
                        match pred {
                            Some(p) => crate::predicate::lemma_wf_compatible(
                                p@,
                                cols,
                                frag_row(self.frags@[f as int], cols, o as int),
                            ),
                            None => (),
                        }
                    }
                    let keep = match pred {
                        Some(p) => crate::predicate::evaluate(p, &row),
                        None => true,
                    };
                    if keep {
                        let ghost out0 = out@;
                        out.push((frag.start_id + o as u64, row));
                        proof {
                            assert(scan_view(out@) =~= scan_view(out0) + seq![
                                (
                                    (self.frags@[f as int].start_id + o) as u64,
                                    frag_row(self.frags@[f as int], cols, o as int),
                                ),
                            ]);
                            assert(scan_view(out0) + frag_scan_from(
                                self.frags@[f as int],
                                cols,
                                pv,
                                o as int,
                            ) + scan_from(self.frags@, cols, pv, f as int + 1) =~= scan_view(
                                out@,
                            ) + frag_scan_from(self.frags@[f as int], cols, pv, o as int + 1)
                                + scan_from(self.frags@, cols, pv, f as int + 1));
                        }
                    } else {
                        proof {
                            assert(frag_scan_from(self.frags@[f as int], cols, pv, o as int)
                                == frag_scan_from(
                                self.frags@[f as int],
                                cols,
                                pv,
                                o as int + 1,
                            ));
                        }
                    }
                } else {
                    proof {
                        assert(frag_scan_from(self.frags@[f as int], cols, pv, o as int)
                            == frag_scan_from(self.frags@[f as int], cols, pv, o as int + 1));
                    }
                }
                o += 1;
            }
            proof {
                assert(frag_scan_from(self.frags@[f as int], cols, pv, nrows as int)
                    =~= Seq::<(u64, Seq<ValueV>)>::empty());
                assert(scan_view(out@) + Seq::<(u64, Seq<ValueV>)>::empty() + scan_from(
                    self.frags@,
                    cols,
                    pv,
                    f as int + 1,
                ) =~= scan_view(out@) + scan_from(self.frags@, cols, pv, f as int + 1));
            }
            f += 1;
        }
        proof {
            assert(scan_from(self.frags@, cols, pv, nf as int)
                =~= Seq::<(u64, Seq<ValueV>)>::empty());
            assert(scan_view(out@) + Seq::<(u64, Seq<ValueV>)>::empty() =~= scan_view(out@));
        }
        Ok(out)
    }
}

impl Table {
    /// The number of live (never-tombstoned or not-yet-tombstoned)
    /// rows.
    #[verifier::loop_isolation(false)]
    pub fn live_row_count(&self) -> (n: u64)
        requires
            self.wf(),
        ensures
            n == live_count(self.frags@),
    {
        let nf = self.frags.len();
        let mut n: u64 = 0;
        let mut f: usize = 0;
        while f < nf
            invariant
                f <= nf,
                nf == self.frags@.len(),
                n == live_below(self.frags@, f as int),
                n <= rows_below(self.frags@, f as int),
            decreases nf - f,
        {
            let frag = &self.frags[f];
            let nrows = frag.nrows;
            let ghost n0 = n as int;
            proof {
                lemma_rows_below_mono(self.frags@, f as int + 1, nf as int);
            }
            let mut o: usize = 0;
            while o < nrows
                invariant
                    o <= nrows,
                    nrows == frag.nrows,
                    n == n0 + live_upto(frag.live@, o as int),
                    n0 + live_upto(frag.live@, o as int) <= rows_below(self.frags@, f as int)
                        + o,
                decreases nrows - o,
            {
                proof {
                    lemma_live_upto_le(frag.live@, o as int);
                }
                if frag.live[o] {
                    n = n + 1;
                }
                o += 1;
            }
            f += 1;
        }
        n
    }

    /// Drop the table: release fragments and index, and refuse every
    /// later operation on this handle with `TableDropped`. Irreversible.
    pub fn drop_now(&mut self)
        requires
            old(self).wf(),
        ensures
            final(self).wf(),
            final(self).dropped,
            final(self).frags@.len() == 0,
            final(self).index is None,
            final(self).schema == old(self).schema,
            final(self).name == old(self).name,
    {
        self.frags = Vec::new();
        self.index = None;
        self.next_id = 0;
        self.dropped = true;
    }
}

/// A scan without a filter yields one row per live row: its length is
/// the live row count.
pub proof fn lemma_scan_len_is_live_count(frags: Seq<Fragment>, cols: Seq<ColumnDef>)
    requires
        forall|i: int| 0 <= i < frags.len() ==> (#[trigger] frags[i]).live@.len() == frags[i].nrows,
    ensures
        scan_from(frags, cols, None, 0).len() == live_count(frags),
{
    lemma_scan_len_from(frags, cols, frags.len() as int);
}

proof fn lemma_frag_scan_len(f: Fragment, cols: Seq<ColumnDef>, o: int)
    requires
        0 <= o <= f.nrows,
    ensures
        frag_scan_from(f, cols, None, o).len() == live_upto(f.live@, f.nrows as int)
            - live_upto(f.live@, o),
    decreases f.nrows - o,
{
    if o < f.nrows {
        lemma_frag_scan_len(f, cols, o + 1);
    } else {
        assert(live_upto(f.live@, o) == live_upto(f.live@, f.nrows as int));
    }
}

proof fn lemma_scan_len_from(frags: Seq<Fragment>, cols: Seq<ColumnDef>, f: int)
    requires
        0 <= f <= frags.len(),
        forall|i: int| 0 <= i < frags.len() ==> (#[trigger] frags[i]).live@.len() == frags[i].nrows,
    ensures
        scan_from(frags, cols, None, frags.len() - f).len() == live_count(frags) - live_below(
            frags,
            frags.len() - f,
        ),
    decreases f,
{
    let fi = frags.len() - f;
    if f > 0 {
        lemma_scan_len_from(frags, cols, f - 1);
        lemma_frag_scan_len(frags[fi], cols, 0);
        assert(live_below(frags, fi + 1) == live_below(frags, fi) + live_upto(
            frags[fi].live@,
            frags[fi].live@.len() as int,
        ));
    }
}

/// After a delete, a scan yields no row the delete's predicate
/// matches: every row it tombstoned stays hidden, and the surviving
/// rows are exactly those that did not match.
pub proof fn lemma_delete_then_scan_has_no_match(
    oldfrags: Seq<Fragment>,
    newfrags: Seq<Fragment>,
    cols: Seq<ColumnDef>,
    p: Seq<Seq<CmpV>>,
)
    requires
        newfrags.len() == oldfrags.len(),
        forall|f: int|
            0 <= f < oldfrags.len() ==> tombstoned_frag(
                oldfrags[f],
                #[trigger] newfrags[f],
                cols,
                p,
            ),
    ensures
        forall|i: int|
            0 <= i < scan_from(newfrags, cols, None, 0).len() ==> !pred_holds(
                p,
                (#[trigger] scan_from(newfrags, cols, None, 0)[i]).1,
            ),
{
    crate::index::lemma_scan_elements(newfrags, cols, None, 0);
    assert forall|i: int|
        0 <= i < scan_from(newfrags, cols, None, 0).len() implies !pred_holds(
        p,
        (#[trigger] scan_from(newfrags, cols, None, 0)[i]).1,
    ) by {
        assert(crate::index::scan_elem_witnessed(
            newfrags,
            cols,
            None,
            scan_from(newfrags, cols, None, 0)[i],
        ));
        let (f, oo) = choose|f: int, oo: int|
            0 <= f < newfrags.len() && live_at(newfrags, f, oo) && opt_pred_holds(
                None,
                frag_row(newfrags[f], cols, oo),
            ) && scan_from(newfrags, cols, None, 0)[i] == (
            ((newfrags[f].start_id + oo) as u64),
            frag_row(newfrags[f], cols, oo),
            );
        assert(tombstoned_frag(oldfrags[f], newfrags[f], cols, p));
        assert(!pred_holds(p, frag_row(oldfrags[f], cols, oo)));
        assert(frag_row(newfrags[f], cols, oo) =~= frag_row(oldfrags[f], cols, oo));
    }
}

} // verus!
