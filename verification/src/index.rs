//! Nearest-neighbour queries. A query ranks every live row (optionally
//! filtered by a predicate) by its exact distance to the target vector
//! and returns the `k` nearest, ties broken by the lower row id. Rows
//! added after the last index build take part like any others: the
//! result is never missing a newer, nearer row.

use vstd::prelude::*;

verus! {

use vstd::seq_lib::group_to_multiset_ensures;
use vstd::multiset::group_multiset_axioms;

use crate::codec::{Fragment, col_value_at, decode_row, frag_row};
use crate::distance::{Metric, ints, spec_distance};
use crate::error::Error;
use crate::predicate::{CmpV, Predicate, dnf_wf};
use crate::schema::{ColumnDef, ColumnType, Schema};
use crate::table::{Table, VecIndex, frag_scan_from, live_at, opt_pred_holds, scan_from, scan_view};
use crate::value::{Value, ValueV, row_view};

/// One query result: a live row, its id, and its distance to the
/// target.
pub struct Hit {
    pub row_id: u64,
    pub dist: i128,
    pub row: Vec<Value>,
}

/// Result order: nearer first, lower row id first among equals.
pub open spec fn hit_le(a: Hit, b: Hit) -> bool {
    a.dist < b.dist || (a.dist == b.dist && a.row_id <= b.row_id)
}

pub open spec fn sorted_hits(s: Seq<Hit>) -> bool {
    forall|i: int, j: int| 0 <= i < j < s.len() ==> hit_le(#[trigger] s[i], #[trigger] s[j])
}

/// A hit is at or before the given distance and id.
pub open spec fn hit_at_or_before(h: Hit, d: int, id: u64) -> bool {
    h.dist < d || (h.dist == d && h.row_id <= id)
}

/// The vector stored in a row's vector column.
pub open spec fn vec_of_row(row: Seq<ValueV>, vc: int) -> Seq<i32> {
    match row[vc] {
        ValueV::Vector(v) => v,
        _ => Seq::empty(),
    }
}

/// Sort hits by distance, then row id, keeping exactly the same hits.
#[verifier::loop_isolation(false)]
fn sort_hits(input: Vec<Hit>) -> (out: Vec<Hit>)
    ensures
        out@.to_multiset() == input@.to_multiset(),
        sorted_hits(out@),
        out@.len() == input@.len(),
{
    broadcast use group_to_multiset_ensures;
    broadcast use group_multiset_axioms;

    let mut src = input;
    let mut out: Vec<Hit> = Vec::new();
    proof {
        assert(out@.to_multiset().add(src@.to_multiset()) =~= input@.to_multiset());
    }
    while src.len() > 0
        invariant
            out@.to_multiset().add(src@.to_multiset()) == input@.to_multiset(),
            sorted_hits(out@),
            out@.len() + src@.len() == input@.len(),
        decreases src@.len(),
    {
        let ghost src0 = src@;
        let x = src.remove(0);
        let mut p: usize = 0;
        while p < out.len() && (out[p].dist < x.dist || (out[p].dist == x.dist && out[p].row_id
            <= x.row_id))
            invariant
                p <= out@.len(),
                forall|m: int| 0 <= m < p ==> hit_le(#[trigger] out@[m], x),
            decreases out@.len() - p,
        {
            p += 1;
        }
        let ghost out0 = out@;
        out.insert(p, x);
        proof {
            assert(out@ == out0.insert(p as int, x));
            assert forall|i: int, j: int|
                0 <= i < j < out@.len() implies hit_le(#[trigger] out@[i], #[trigger] out@[j]) by {
                if i < p && j < p {
                    assert(hit_le(out0[i], out0[j]));
                } else if i < p && j == p {
                    assert(hit_le(out0[i], x));
                } else if i < p && j > p {
                    assert(hit_le(out0[i], out0[j - 1]));
                } else if i == p && j > p {
                    if p < out0.len() {
                        assert(!hit_le(out0[p as int], x));
                        assert(hit_le(out0[p as int], out0[j - 1]) || p as int == j - 1);
                    }
                } else if i > p && j > p {
                    assert(hit_le(out0[i - 1], out0[j - 1]));
                }
            }
            assert(out@.to_multiset() =~= out0.to_multiset().insert(x));
            assert(src@.to_multiset() =~= src0.to_multiset().remove(x));
            assert(src0.to_multiset().count(x) > 0) by {
                assert(src0.contains(x));
            }
            assert(out@.to_multiset().add(src@.to_multiset()) =~= out0.to_multiset().add(
                src0.to_multiset(),
            ));
        }
    }
    proof {
        assert(src@.to_multiset().len() == 0);
        assert(out@.to_multiset().add(src@.to_multiset()) =~= out@.to_multiset());
    }
    out
}

/// Every row a scan yields is a live row, passes the filter, and comes
/// with its own row id.
pub proof fn lemma_frag_scan_elements(
    f: Fragment,
    cols: Seq<ColumnDef>,
    p: Option<Seq<Seq<CmpV>>>,
    o: int,
)
    requires
        0 <= o,
    ensures
        forall|i: int|
            0 <= i < frag_scan_from(f, cols, p, o).len() ==> exists|oo: int|
                o <= oo < f.nrows && f.live@[oo] && opt_pred_holds(p, frag_row(f, cols, oo))
                    && #[trigger] frag_scan_from(f, cols, p, o)[i] == (
                ((f.start_id + oo) as u64),
                frag_row(f, cols, oo),
                ),
    decreases f.nrows - o,
{
    if o < f.nrows {
        lemma_frag_scan_elements(f, cols, p, o + 1);
        let rest = frag_scan_from(f, cols, p, o + 1);
        if f.live@[o] && opt_pred_holds(p, frag_row(f, cols, o)) {
            assert forall|i: int|
                0 <= i < frag_scan_from(f, cols, p, o).len() implies exists|oo: int|
                o <= oo < f.nrows && f.live@[oo] && opt_pred_holds(p, frag_row(f, cols, oo))
                    && #[trigger] frag_scan_from(f, cols, p, o)[i] == (
                ((f.start_id + oo) as u64),
                frag_row(f, cols, oo),
                ) by {
                if i == 0 {
                    assert(frag_scan_from(f, cols, p, o)[0] == (
                        ((f.start_id + o) as u64),
                        frag_row(f, cols, o),
                    ));
                } else {
                    assert(frag_scan_from(f, cols, p, o)[i] == rest[i - 1]);
                    let oo = choose|oo: int|
                        o + 1 <= oo < f.nrows && f.live@[oo] && opt_pred_holds(
                            p,
                            frag_row(f, cols, oo),
                        ) && rest[i - 1] == (((f.start_id + oo) as u64), frag_row(f, cols, oo));
                    assert(frag_scan_from(f, cols, p, o)[i] == (
                        ((f.start_id + oo) as u64),
                        frag_row(f, cols, oo),
                    ));
                }
            }
        }
    }
}

/// Some live, filter-passing row stands behind a scanned element.
pub open spec fn scan_elem_witnessed(
    frags: Seq<Fragment>,
    cols: Seq<ColumnDef>,
    p: Option<Seq<Seq<CmpV>>>,
    e: (u64, Seq<ValueV>),
) -> bool {
    exists|f: int, oo: int|
        0 <= f < frags.len() && live_at(frags, f, oo) && opt_pred_holds(
            p,
            frag_row(frags[f], cols, oo),
        ) && e == (((frags[f].start_id + oo) as u64), frag_row(frags[f], cols, oo))
}

/// As [`lemma_frag_scan_elements`], over all fragments.
pub proof fn lemma_scan_elements(
    frags: Seq<Fragment>,
    cols: Seq<ColumnDef>,
    p: Option<Seq<Seq<CmpV>>>,
    fi: int,
)
    requires
        0 <= fi,
    ensures
        forall|i: int|
            0 <= i < scan_from(frags, cols, p, fi).len() ==> scan_elem_witnessed(
                frags,
                cols,
                p,
                #[trigger] scan_from(frags, cols, p, fi)[i],
            ),
    decreases frags.len() - fi,
{
    if fi < frags.len() {
        lemma_scan_elements(frags, cols, p, fi + 1);
        lemma_frag_scan_elements(frags[fi], cols, p, 0);
        let head = frag_scan_from(frags[fi], cols, p, 0);
        let rest = scan_from(frags, cols, p, fi + 1);
        assert forall|i: int|
            0 <= i < scan_from(frags, cols, p, fi).len() implies scan_elem_witnessed(
            frags,
            cols,
            p,
            #[trigger] scan_from(frags, cols, p, fi)[i],
        ) by {
            if i < head.len() {
                let oo = choose|oo: int|
                    0 <= oo < frags[fi].nrows && frags[fi].live@[oo] && opt_pred_holds(
                        p,
                        frag_row(frags[fi], cols, oo),
                    ) && head[i] == (
                    ((frags[fi].start_id + oo) as u64),
                    frag_row(frags[fi], cols, oo),
                    );
                assert(scan_from(frags, cols, p, fi)[i] == head[i]);
                assert(0 <= fi < frags.len() && live_at(frags, fi, oo) && opt_pred_holds(
                    p,
                    frag_row(frags[fi], cols, oo),
                ) && scan_from(frags, cols, p, fi)[i] == (
                ((frags[fi].start_id + oo) as u64),
                frag_row(frags[fi], cols, oo),
                ));
                assert(scan_elem_witnessed(frags, cols, p, scan_from(frags, cols, p, fi)[i]));
            } else {
                assert(scan_from(frags, cols, p, fi)[i] == rest[i - head.len()]);
                assert(scan_elem_witnessed(frags, cols, p, rest[i - head.len()]));
            }
        }
    }
}

/// Some result hit has this row id.
pub open spec fn id_in_hits(hits: Seq<Hit>, id: u64) -> bool {
    exists|i: int| 0 <= i < hits.len() && (#[trigger] hits[i]).row_id == id
}

/// Every result hit ranks at or before this distance and id.
pub open spec fn all_hits_at_or_before(hits: Seq<Hit>, d: int, id: u64) -> bool {
    forall|i: int| 0 <= i < hits.len() ==> hit_at_or_before(#[trigger] hits[i], d, id)
}

/// The distance the query ranks a scanned row by.
pub open spec fn scan_dist(m: Metric, qv: Seq<i32>, e: (u64, Seq<ValueV>), vc: int) -> int {
    spec_distance(m, ints(qv), ints(vec_of_row(e.1, vc)))
}

/// The hit reports a scanned row faithfully: its id, its data and its
/// exact distance to the target.
pub open spec fn hit_matches_scan(
    h: Hit,
    sc: Seq<(u64, Seq<ValueV>)>,
    m: Metric,
    qv: Seq<i32>,
    vc: int,
) -> bool {
    exists|j: int|
        0 <= j < sc.len() && h.row_id == (#[trigger] sc[j]).0 && row_view(h.row@) == sc[j].1
            && h.dist == scan_dist(m, qv, sc[j], vc)
}

impl Table {
    /// Rebuild the vector index from the rows that are live now. The
    /// new snapshot covers every current fragment; rows added later are
    /// newer than its watermark until the next build.
    #[verifier::loop_isolation(false)]
    pub fn build_index(&mut self) -> (r: Result<(), Error>)
        requires
            old(self).wf(),
        ensures
            final(self).wf(),
            match r {
                Ok(_) => {
                    &&& !old(self).dropped
                    &&& final(self).schema == old(self).schema
                    &&& final(self).name == old(self).name
                    &&& final(self).frags == old(self).frags
                    &&& final(self).next_id == old(self).next_id
                    &&& final(self).dropped == old(self).dropped
                    &&& final(self).index matches Some(ix) && ix.watermark
                        == final(self).frags@.len() && (forall|j: int|
                        0 <= j < ix.entries@.len() ==> live_at(
                            final(self).frags@,
                            (#[trigger] ix.entries@[j]).0 as int,
                            ix.entries@[j].1 as int,
                        ))
                },
                Err(e) => *final(self) == *old(self) && old(self).dropped && e
                    == Error::TableDropped,
            },
    {
        if self.dropped {
            return Err(Error::TableDropped);
        }
        let nf = self.frags.len();
        let mut entries: Vec<(usize, usize)> = Vec::new();
        let mut f: usize = 0;
        while f < nf
            invariant
                f <= nf,
                nf == self.frags@.len(),
                forall|j: int|
                    0 <= j < entries@.len() ==> (#[trigger] entries@[j]).0 < f && entries@[j].1
                        < self.frags@[entries@[j].0 as int].nrows,
                forall|j: int|
                    0 <= j < entries@.len() ==> live_at(
                        self.frags@,
                        (#[trigger] entries@[j]).0 as int,
                        entries@[j].1 as int,
                    ),
                forall|j: int|
                    0 <= j && j + 1 < entries@.len() ==> ((#[trigger] entries@[j]).0 < entries@[j
                        + 1].0 || (entries@[j].0 == entries@[j + 1].0 && entries@[j].1
                        < entries@[j + 1].1)),
                forall|ff: int, oo: int|
                    ff < f && #[trigger] live_at(self.frags@, ff, oo) ==> entries@.contains(
                        (ff as usize, oo as usize),
                    ),
            decreases nf - f,
        {
            let frag = &self.frags[f];
            let nrows = frag.nrows;
            let mut o: usize = 0;
            while o < nrows
                invariant
                    o <= nrows,
                    nrows == frag.nrows,
                    forall|j: int|
                        0 <= j < entries@.len() ==> ((#[trigger] entries@[j]).0 < f || (
                        entries@[j].0 == f && entries@[j].1 < o)),
                    forall|j: int|
                        0 <= j < entries@.len() ==> (#[trigger] entries@[j]).0 < nf
                            && entries@[j].1 < self.frags@[entries@[j].0 as int].nrows,
                    forall|j: int|
                        0 <= j < entries@.len() ==> live_at(
                            self.frags@,
                            (#[trigger] entries@[j]).0 as int,
                            entries@[j].1 as int,
                        ),
                    forall|j: int|
                        0 <= j && j + 1 < entries@.len() ==> ((#[trigger] entries@[j]).0 < entries@[j
                            + 1].0 || (entries@[j].0 == entries@[j + 1].0 && entries@[j].1
                            < entries@[j + 1].1)),
                    forall|ff: int, oo: int|
                        (ff < f || (ff == f && oo < o)) && #[trigger] live_at(
                            self.frags@,
                            ff,
                            oo,
                        ) ==> entries@.contains((ff as usize, oo as usize)),
                decreases nrows - o,
            {
                if frag.live[o] {
                    let ghost entries0 = entries@;
                    entries.push((f, o));
                    proof {
                        assert forall|j: int|
                            0 <= j && j + 1 < entries@.len() implies ((#[trigger] entries@[j]).0
                            < entries@[j + 1].0 || (entries@[j].0 == entries@[j + 1].0
                            && entries@[j].1 < entries@[j + 1].1)) by {
                            if j + 1 < entries0.len() {
                                assert(entries@[j] == entries0[j]);
                                assert(entries@[j + 1] == entries0[j + 1]);
                            } else {
                                assert(entries@[j] == entries0[j]);
                                assert(entries@[j + 1] == (f as usize, o as usize));
                            }
                        }
                        assert forall|ff: int, oo: int|
                            (ff < f || (ff == f && oo < o + 1)) && #[trigger] live_at(
                                self.frags@,
                                ff,
                                oo,
                            ) implies entries@.contains((ff as usize, oo as usize)) by {
                            if ff < f || oo < o {
                                let j = choose|j: int|
                                    0 <= j < entries0.len() && entries0[j] == (
                                        ff as usize,
                                        oo as usize,
                                    );
                                assert(entries@[j] == (ff as usize, oo as usize));
                            } else {
                                assert(entries@[entries@.len() - 1] == (ff as usize, oo as usize));
                            }
                        }
                    }
                } else {
                    proof {
                        assert forall|ff: int, oo: int|
                            (ff < f || (ff == f && oo < o + 1)) && #[trigger] live_at(
                                self.frags@,
                                ff,
                                oo,
                            ) implies entries@.contains((ff as usize, oo as usize)) by {
                            assert(ff < f || oo < o || (ff == f && oo == o));
                            assert(!(ff == f && oo == o));
                        }
                    }
                }
                o += 1;
            }
            f += 1;
        }
        self.index = Some(VecIndex { entries, watermark: nf });
        Ok(())
    }

    /// Emit row `(f2, o2)` if it is live and passes the filter; either
    /// way the scan decomposition moves one offset forward.
    #[verifier::loop_isolation(false)]
    fn emit_row_if_live(
        &self,
        f2: usize,
        o2: usize,
        pred: Option<&Predicate>,
        out: &mut Vec<(u64, Vec<Value>)>,
    )
        requires
            self.wf(),
            pred matches Some(p) ==> dnf_wf(p@, self.schema.cols@),
            f2 < self.frags@.len(),
            o2 < self.frags@[f2 as int].nrows,
            scan_from(
                self.frags@,
                self.schema.cols@,
                match pred {
                    Some(p) => Some(p@),
                    None => None,
                },
                0,
            ) == scan_view(old(out)@) + frag_scan_from(
                self.frags@[f2 as int],
                self.schema.cols@,
                match pred {
                    Some(p) => Some(p@),
                    None => None,
                },
                o2 as int,
            ) + scan_from(
                self.frags@,
                self.schema.cols@,
                match pred {
                    Some(p) => Some(p@),
                    None => None,
                },
                f2 as int + 1,
            ),
        ensures
            scan_from(
                self.frags@,
                self.schema.cols@,
                match pred {
                    Some(p) => Some(p@),
                    None => None,
                },
                0,
            ) == scan_view(final(out)@) + frag_scan_from(
                self.frags@[f2 as int],
                self.schema.cols@,
                match pred {
                    Some(p) => Some(p@),
                    None => None,
                },
                o2 as int + 1,
            ) + scan_from(
                self.frags@,
                self.schema.cols@,
                match pred {
                    Some(p) => Some(p@),
                    None => None,
                },
                f2 as int + 1,
            ),
    {
        let ghost cols = self.schema.cols@;
        let ghost pv: Option<Seq<Seq<CmpV>>> = match pred {
            Some(p) => Some(p@),
            None => None,
        };
        let ghost frs = self.frags@;
        if self.frags[f2].live[o2] {
            let row = decode_row(&self.frags[f2], &self.schema, o2);
            proof {
                crate::codec::lemma_frag_row_conforms(frs[f2 as int], cols, o2 as int);
                match pred {
                    Some(p) => crate::predicate::lemma_wf_compatible(
                        p@,
                        cols,
                        frag_row(frs[f2 as int], cols, o2 as int),
                    ),
                    None => (),
                }
            }
            let keep = match pred {
                Some(p) => crate::predicate::evaluate(p, &row),
                None => true,
            };
            if keep {
                let ghost out0 = out@;
                out.push((self.frags[f2].start_id + o2 as u64, row));
                proof {
                    assert(scan_view(out@) =~= scan_view(out0) + seq![
                        (
                            (frs[f2 as int].start_id + o2) as u64,
                            frag_row(frs[f2 as int], cols, o2 as int),
                        ),
                    ]);
                    lemma_scan_push_step(
                        scan_view(out0),
                        scan_view(out@),
                        frs,
                        cols,
                        pv,
                        f2 as int,
                        o2 as int,
                    );
                }
            } else {
                proof {
                    assert(frag_scan_from(frs[f2 as int], cols, pv, o2 as int)
                        == frag_scan_from(frs[f2 as int], cols, pv, o2 as int + 1));
                }
            }
        } else {
            proof {
                assert(frag_scan_from(frs[f2 as int], cols, pv, o2 as int)
                    == frag_scan_from(frs[f2 as int], cols, pv, o2 as int + 1));
            }
        }
    }

    /// Collect the filtered live rows by walking the index snapshot
    /// over the fragments it covers and scanning the newer fragments
    /// directly. Rows absent from the snapshot were dead at build time
    /// and stay dead, and snapshot rows tombstoned since are skipped,
    /// so the merged result is exactly what a full scan yields.
    #[verifier::rlimit(100)]
    #[verifier::spinoff_prover]
    fn scan_with_index(&self, ix: &VecIndex, pred: Option<&Predicate>) -> (out: Vec<
        (u64, Vec<Value>),
    >)
        requires
            self.wf(),
            self.index == Some(*ix),
            pred matches Some(p) ==> dnf_wf(p@, self.schema.cols@),
        ensures
            scan_view(out@) == scan_from(
                self.frags@,
                self.schema.cols@,
                match pred {
                    Some(p) => Some(p@),
                    None => None,
                },
                0,
            ),
    {
        let ghost cols = self.schema.cols@;
        let ghost pv: Option<Seq<Seq<CmpV>>> = match pred {
            Some(p) => Some(p@),
            None => None,
        };
        let ghost frs = self.frags@;
        proof {
            assert(crate::table::index_wf(*ix, frs));
        }
        let wm = ix.watermark;
        let nf = self.frags.len();
        let ne = ix.entries.len();
        let mut out: Vec<(u64, Vec<Value>)> = Vec::new();
        proof {
            assert(scan_view(out@) =~= Seq::<(u64, Seq<ValueV>)>::empty());
        }
        if ne == 0 {
            proof {
                lemma_remainder_covered_empty(ix.entries@, frs, cols, pv, wm);
                assert(scan_view(out@) + scan_from(frs, cols, pv, wm as int) =~= scan_from(
                    frs,
                    cols,
                    pv,
                    wm as int,
                ));
            }
            return self.scan_tail(wm, pred, out);
        }
        let ghost mut cf: int = 0;
        let ghost mut co: int = 0;
        proof {
            assert(ix.entries@[0].0 < wm);
            assert(0 < wm <= nf);
            assert(scan_from(frs, cols, pv, 0) == frag_scan_from(frs[0], cols, pv, 0)
                + scan_from(frs, cols, pv, 1));
            assert(scan_view(out@) + frag_scan_from(frs[0], cols, pv, 0) + scan_from(
                frs,
                cols,
                pv,
                1,
            ) =~= frag_scan_from(frs[0], cols, pv, 0) + scan_from(frs, cols, pv, 1));
        }
        let mut e: usize = 0;
        while e < ne
            invariant
                self.wf(),
                pred matches Some(p) ==> dnf_wf(p@, self.schema.cols@),
                cols == self.schema.cols@,
                pv == (match pred {
                    Some(p) => Some(p@),
                    None => None,
                }),
                frs == self.frags@,
                crate::table::index_wf(*ix, frs),
                wm == ix.watermark,
                nf == frs.len(),
                ne == ix.entries@.len(),
                e <= ne,
                0 <= cf < wm,
                0 <= co <= frs[cf].nrows,
                scan_from(frs, cols, pv, 0) == scan_view(out@) + frag_scan_from(
                    frs[cf],
                    cols,
                    pv,
                    co,
                ) + scan_from(frs, cols, pv, cf + 1),
                forall|j: int|
                    0 <= j < e ==> ((#[trigger] ix.entries@[j]).0 < cf || (ix.entries@[j].0
                        == cf && ix.entries@[j].1 < co)),
                e < ne ==> (cf < ix.entries@[e as int].0 || (cf == ix.entries@[e as int].0
                    && co <= ix.entries@[e as int].1)),
            decreases ne - e,
        {
            let (f2, o2) = ix.entries[e];
            proof {
                assert(ix.entries@[e as int] == (f2, o2));
                assert(f2 < wm && o2 < frs[f2 as int].nrows);
                lemma_advance_remainder(
                    scan_view(out@),
                    ix.entries@,
                    frs,
                    cols,
                    pv,
                    wm,
                    e as int,
                    cf,
                    co,
                );
                cf = f2 as int;
                co = o2 as int;
            }
            self.emit_row_if_live(f2, o2, pred, &mut out);
            proof {
                co = o2 as int + 1;
                if e as int + 1 < ne {
                    lemma_entries_chain(ix.entries@, e as int, e as int + 1);
                }
            }
            e += 1;
        }
        proof {
            lemma_remainder_after_entries(
                scan_view(out@),
                ix.entries@,
                frs,
                cols,
                pv,
                wm,
                cf,
                co,
            );
        }
        self.scan_tail(wm, pred, out)
    }

    /// Scan fragments `start ..` directly, appending to already
    /// collected rows whose view is the scan of everything before
    /// `start`.
    #[verifier::loop_isolation(false)]
    fn scan_tail(&self, start: usize, pred: Option<&Predicate>, collected: Vec<(u64, Vec<Value>)>)
        -> (res: Vec<(u64, Vec<Value>)>)
        requires
            self.wf(),
            pred matches Some(p) ==> dnf_wf(p@, self.schema.cols@),
            start <= self.frags@.len(),
            scan_from(
                self.frags@,
                self.schema.cols@,
                match pred {
                    Some(p) => Some(p@),
                    None => None,
                },
                0,
            ) == scan_view(collected@) + scan_from(
                self.frags@,
                self.schema.cols@,
                match pred {
                    Some(p) => Some(p@),
                    None => None,
                },
                start as int,
            ),
        ensures
            scan_view(res@) == scan_from(
                self.frags@,
                self.schema.cols@,
                match pred {
                    Some(p) => Some(p@),
                    None => None,
                },
                0,
            ),
    {
        let ghost cols = self.schema.cols@;
        let ghost pv: Option<Seq<Seq<CmpV>>> = match pred {
            Some(p) => Some(p@),
            None => None,
        };
        let ghost frs = self.frags@;
        let nf = self.frags.len();
        let mut out = collected;
        let mut f = start;
        while f < nf
            invariant
                start <= f <= nf,
                scan_from(frs, cols, pv, 0) == scan_view(out@) + scan_from(
                    frs,
                    cols,
                    pv,
                    f as int,
                ),
            decreases nf - f,
        {
            let frag = &self.frags[f];
            let nrows = frag.nrows;
            let mut o: usize = 0;
            while o < nrows
                invariant
                    o <= nrows,
                    nrows == frag.nrows,
                    scan_from(frs, cols, pv, 0) == scan_view(out@) + frag_scan_from(
                        frs[f as int],
                        cols,
                        pv,
                        o as int,
                    ) + scan_from(frs, cols, pv, f as int + 1),
                decreases nrows - o,
            {
                self.emit_row_if_live(f, o, pred, &mut out);
                o += 1;
            }
            proof {
                assert(frag_scan_from(frs[f as int], cols, pv, nrows as int)
                    =~= Seq::<(u64, Seq<ValueV>)>::empty());
                assert(scan_view(out@) + Seq::<(u64, Seq<ValueV>)>::empty() + scan_from(
                    frs,
                    cols,
                    pv,
                    f as int + 1,
                ) =~= scan_view(out@) + scan_from(frs, cols, pv, f as int + 1));
            }
            f += 1;
        }
        proof {
            assert(scan_from(frs, cols, pv, nf as int) =~= Seq::<(u64, Seq<ValueV>)>::empty());
            assert(scan_view(out@) + Seq::<(u64, Seq<ValueV>)>::empty() =~= scan_view(out@));
        }
        out
    }

    /// The `k` nearest live rows to the target vector, nearest first,
    /// ties broken by the lower row id, optionally filtered by a
    /// predicate. Exact over every live row whether or not the index
    /// snapshot is stale: a row added after the last build is ranked
    /// like any other, and a tombstoned row is never returned.
    ///
    /// Fails with `TableDropped` after a drop, and with
    /// `DimensionMismatch` when the target's length is not the schema's
    /// vector dimension (or the schema has no vector column).
    #[verifier::loop_isolation(false)]
    pub fn search(&self, qvec: &Vec<i32>, k: usize, pred: Option<&Predicate>, metric: Metric)
        -> (r: Result<Vec<Hit>, Error>)
        requires
            self.wf(),
            pred matches Some(p) ==> dnf_wf(p@, self.schema.cols@),
        ensures
            match r {
                Ok(hits) => {
                    let pv = match pred {
                        Some(p) => Some(p@),
                        None => None,
                    };
                    let vc = self.schema.spec_vector_col()->Some_0;
                    let sc = scan_from(self.frags@, self.schema.cols@, pv, 0);
                    &&& !self.dropped
                    &&& self.schema.spec_vector_col() is Some
                    &&& qvec@.len() == self.schema.spec_vector_dim()
                    &&& hits@.len() == if k <= sc.len() {
                        k as int
                    } else {
                        sc.len() as int
                    }
                    &&& sorted_hits(hits@)
                    &&& forall|i: int|
                        0 <= i < hits@.len() ==> hit_matches_scan(
                            #[trigger] hits@[i],
                            sc,
                            metric,
                            qvec@,
                            vc as int,
                        )
                    &&& forall|j: int|
                        0 <= j < sc.len() ==> id_in_hits(hits@, (#[trigger] sc[j]).0)
                            || all_hits_at_or_before(
                            hits@,
                            scan_dist(metric, qvec@, sc[j], vc as int),
                            sc[j].0,
                        )
                },
                Err(e) => if self.dropped {
                    e == Error::TableDropped
                } else {
                    e == Error::Index(crate::error::IndexError::DimensionMismatch) && (
                    self.schema.spec_vector_col() is None || qvec@.len()
                        != self.schema.spec_vector_dim())
                },
            },
    {
        if self.dropped {
            return Err(Error::TableDropped);
        }
        let ghost cols = self.schema.cols@;
        proof {
            assert(self.schema.cols.len() == cols.len());
            Schema::lemma_vector_col_props(cols, 0);
        }
        let vc = match self.schema.vector_col() {
            None => {
                return Err(Error::Index(crate::error::IndexError::DimensionMismatch));
            },
            Some(c) => c,
        };
        let d: usize = match self.schema.cols[vc].ctype {
            ColumnType::FixedSizeVector(d0) => d0,
            _ => vstd::pervasive::unreached(),
        };
        proof {
            assert(d == self.schema.spec_vector_dim());
            assert(crate::schema::issue_at(cols, vc as int) is None);
            assert(1 <= d <= crate::schema::MAX_DIM);
        }
        if qvec.len() != d {
            return Err(Error::Index(crate::error::IndexError::DimensionMismatch));
        }
        let ghost pv: Option<Seq<Seq<CmpV>>> = match pred {
            Some(p) => Some(p@),
            None => None,
        };
        let rows = match &self.index {
            Some(ix) => self.scan_with_index(ix, pred),
            None => match self.scan(pred) {
                Err(_) => vstd::pervasive::unreached(),
                Ok(rows) => rows,
            },
        };
        let ghost sc = scan_from(self.frags@, cols, pv, 0);
        proof {
            lemma_scan_elements(self.frags@, cols, pv, 0);
            assert(scan_view(rows@) == sc);
        }
        let mut hits: Vec<Hit> = Vec::new();
        let mut src = rows;
        proof {
            assert(scan_view(src@) =~= sc.skip(0));
        }
        while src.len() > 0
            invariant
                hits@.len() + src@.len() == sc.len(),
                scan_view(src@) == sc.skip(hits@.len() as int),
                forall|i: int|
                    0 <= i < hits@.len() ==> (#[trigger] hits@[i]).row_id == sc[i].0 && row_view(
                        hits@[i].row@,
                    ) == sc[i].1 && hits@[i].dist == scan_dist(metric, qvec@, sc[i], vc as int),
            decreases src@.len(),
        {
            let ghost idx = hits@.len() as int;
            let ghost src0 = src@;
            let (id, row) = src.remove(0);
            proof {
                assert(scan_view(src0)[0] == (id, row_view(row@)));
                assert(sc.skip(idx)[0] == sc[idx]);
                assert(sc[idx] == (id, row_view(row@)));
                assert(scan_elem_witnessed(self.frags@, cols, pv, sc[idx])) by {
                    assert(sc[idx] == scan_from(self.frags@, cols, pv, 0)[idx]);
                }
                let (f, oo) = choose|f: int, oo: int|
                    0 <= f < self.frags@.len() && live_at(self.frags@, f, oo) && opt_pred_holds(
                        pv,
                        frag_row(self.frags@[f], cols, oo),
                    ) && sc[idx] == (
                    ((self.frags@[f].start_id + oo) as u64),
                    frag_row(self.frags@[f], cols, oo),
                    );
                lemma_frag_vector_value(self.frags@[f], cols, vc as int, d, oo);
                assert(row_view(row@) == frag_row(self.frags@[f], cols, oo));
                assert(row_view(row@).len() == row@.map_values(|v: Value| v@).len());
                assert(row@.map_values(|v: Value| v@).len() == row@.len());
                assert(frag_row(self.frags@[f], cols, oo).len() == cols.len());
                assert(row@.len() == cols.len());
                assert(row_view(row@)[vc as int] == row@[vc as int]@);
            }
            let v: &Vec<i32> = match &row[vc] {
                Value::Vector(v) => v,
                _ => vstd::pervasive::unreached(),
            };
            let dist = crate::distance::distance(metric, qvec, v);
            hits.push(Hit { row_id: id, dist, row });
            proof {
                assert(scan_view(src@) =~= scan_view(src0).drop_first());
                assert(sc.skip(idx).drop_first() =~= sc.skip(idx + 1));
            }
        }
        proof {
            assert(sc.skip(sc.len() as int).len() == 0);
        }
        let ghost hits0 = hits@;
        let sorted = sort_hits(hits);
        let mut result = sorted;
        let klen = if k < result.len() {
            k
        } else {
            result.len()
        };
        let ghost sorted_seq = result@;
        result.truncate(klen);
        proof {
            broadcast use group_to_multiset_ensures;

            assert(result@ == sorted_seq.subrange(0, klen as int));
            assert forall|i: int|
                0 <= i < result@.len() implies hit_matches_scan(
                #[trigger] result@[i],
                sc,
                metric,
                qvec@,
                vc as int,
            ) by {
                assert(sorted_seq.contains(result@[i])) by {
                    assert(sorted_seq[i] == result@[i]);
                }
                assert(sorted_seq.to_multiset().count(result@[i]) > 0);
                assert(hits0.to_multiset().count(result@[i]) > 0);
                assert(hits0.contains(result@[i]));
                let j = choose|j: int| 0 <= j < hits0.len() && hits0[j] == result@[i];
                assert(result@[i].row_id == sc[j].0 && row_view(result@[i].row@) == sc[j].1
                    && result@[i].dist == scan_dist(metric, qvec@, sc[j], vc as int));
            }
            assert forall|j: int|
                0 <= j < sc.len() implies id_in_hits(result@, (#[trigger] sc[j]).0)
                || all_hits_at_or_before(
                result@,
                scan_dist(metric, qvec@, sc[j], vc as int),
                sc[j].0,
            ) by {
                assert(hits0.contains(hits0[j])) by {
                    assert(hits0[j] == hits0[j]);
                }
                assert(hits0.to_multiset().count(hits0[j]) > 0);
                assert(sorted_seq.to_multiset().count(hits0[j]) > 0);
                assert(sorted_seq.contains(hits0[j]));
                let q = choose|q: int| 0 <= q < sorted_seq.len() && sorted_seq[q] == hits0[j];
                if q < klen {
                    assert(result@[q].row_id == sc[j].0);
                    assert(id_in_hits(result@, sc[j].0));
                } else {
                    assert forall|i: int|
                        0 <= i < result@.len() implies hit_at_or_before(
                        #[trigger] result@[i],
                        scan_dist(metric, qvec@, sc[j], vc as int),
                        sc[j].0,
                    ) by {
                        assert(hit_le(sorted_seq[i], sorted_seq[q]));
                    }
                }
            }
        }
        Ok(result)
    }
}

/// Strict coordinate order: earlier fragment, or lower offset within
/// one.
pub open spec fn coord_lt(a: (usize, usize), b: (usize, usize)) -> bool {
    a.0 < b.0 || (a.0 == b.0 && a.1 < b.1)
}

/// Adjacent order of index entries extends to any pair.
pub proof fn lemma_entries_chain(entries: Seq<(usize, usize)>, i: int, j: int)
    requires
        forall|m: int|
            0 <= m && m + 1 < entries.len() ==> ((#[trigger] entries[m]).0 < entries[m + 1].0
                || (entries[m].0 == entries[m + 1].0 && entries[m].1 < entries[m + 1].1)),
        0 <= i < j < entries.len(),
    ensures
        coord_lt(entries[i], entries[j]),
    decreases j - i,
{
    if i + 1 < j {
        lemma_entries_chain(entries, i + 1, j);
    }
}

/// A scan step over dead offsets yields nothing.
proof fn lemma_frag_scan_skip_dead(
    f: Fragment,
    cols: Seq<ColumnDef>,
    p: Option<Seq<Seq<CmpV>>>,
    a: int,
    b: int,
)
    requires
        0 <= a <= b,
        forall|o: int| a <= o < b ==> !(#[trigger] f.live@[o]),
    ensures
        frag_scan_from(f, cols, p, a) == frag_scan_from(f, cols, p, b),
    decreases b - a,
{
    if a < b && a < f.nrows {
        lemma_frag_scan_skip_dead(f, cols, p, a + 1, b);
    } else if a < b {
        lemma_frag_scan_skip_dead(f, cols, p, a + 1, b);
    }
}

/// A scan over fully dead fragments yields nothing.
proof fn lemma_scan_skip_dead_frags(
    frags: Seq<Fragment>,
    cols: Seq<ColumnDef>,
    p: Option<Seq<Seq<CmpV>>>,
    a: int,
    b: int,
)
    requires
        0 <= a <= b <= frags.len(),
        forall|f: int, o: int|
            a <= f < b && 0 <= o < frags[f].nrows ==> !(#[trigger] frags[f].live@[o]),
    ensures
        scan_from(frags, cols, p, a) == scan_from(frags, cols, p, b),
    decreases b - a,
{
    if a < b {
        lemma_frag_scan_skip_dead(frags[a], cols, p, 0, frags[a].nrows as int);
        assert(frag_scan_from(frags[a], cols, p, frags[a].nrows as int)
            =~= Seq::<(u64, Seq<ValueV>)>::empty());
        lemma_scan_skip_dead_frags(frags, cols, p, a + 1, b);
        assert(Seq::<(u64, Seq<ValueV>)>::empty() + scan_from(frags, cols, p, a + 1)
            =~= scan_from(frags, cols, p, a + 1));
    }
}

/// Stepping a scan from one coordinate to the next index entry changes
/// nothing: every coordinate in between is missing from the complete,
/// ordered snapshot, hence dead.
proof fn lemma_advance_remainder(
    sv: Seq<(u64, Seq<ValueV>)>,
    entries: Seq<(usize, usize)>,
    frs: Seq<Fragment>,
    cols: Seq<ColumnDef>,
    pv: Option<Seq<Seq<CmpV>>>,
    wm: usize,
    e: int,
    cf: int,
    co: int,
)
    requires
        wm <= frs.len(),
        forall|j: int|
            0 <= j < entries.len() ==> (#[trigger] entries[j]).0 < wm && entries[j].1
                < frs[entries[j].0 as int].nrows,
        forall|m: int|
            0 <= m && m + 1 < entries.len() ==> ((#[trigger] entries[m]).0 < entries[m + 1].0
                || (entries[m].0 == entries[m + 1].0 && entries[m].1 < entries[m + 1].1)),
        forall|f: int, o: int|
            f < wm && #[trigger] live_at(frs, f, o) ==> entries.contains(
                (f as usize, o as usize),
            ),
        0 <= e < entries.len(),
        0 <= cf < frs.len(),
        0 <= co <= frs[cf].nrows,
        cf < entries[e].0 || (cf == entries[e].0 && co <= entries[e].1),
        forall|j: int|
            0 <= j < e ==> ((#[trigger] entries[j]).0 < cf || (entries[j].0 == cf
                && entries[j].1 < co)),
    ensures
        sv + frag_scan_from(frs[cf], cols, pv, co) + scan_from(frs, cols, pv, cf + 1)
            == sv + frag_scan_from(frs[entries[e].0 as int], cols, pv, entries[e].1 as int)
            + scan_from(frs, cols, pv, entries[e].0 as int + 1),
{
    let f2 = entries[e].0 as int;
    let o2 = entries[e].1 as int;
    assert forall|f: int, o: int|
        ((cf < f || (cf == f && co <= o)) && (f < f2 || (f == f2 && o < o2)) && 0 <= f
            < frs.len() && 0 <= o < frs[f].nrows) implies !(#[trigger] frs[f].live@[o]) by {
        if frs[f].live@[o] {
            assert(live_at(frs, f, o));
            assert(f < wm);
            assert(entries.contains((f as usize, o as usize)));
            let j = choose|j: int|
                0 <= j < entries.len() && entries[j] == (f as usize, o as usize);
            if j < e {
                assert(entries[j].0 < cf || (entries[j].0 == cf && entries[j].1 < co));
                assert(false);
            } else if j == e {
                assert(false);
            } else {
                lemma_entries_chain(entries, e, j);
                assert(false);
            }
        }
    }
    if cf == f2 {
        lemma_frag_scan_skip_dead(frs[cf], cols, pv, co, o2);
    } else {
        lemma_frag_scan_skip_dead(frs[cf], cols, pv, co, frs[cf].nrows as int);
        assert(frag_scan_from(frs[cf], cols, pv, frs[cf].nrows as int)
            =~= Seq::<(u64, Seq<ValueV>)>::empty());
        lemma_scan_skip_dead_frags(frs, cols, pv, cf + 1, f2);
        lemma_frag_scan_skip_dead(frs[f2], cols, pv, 0, o2);
        assert(scan_from(frs, cols, pv, f2) == frag_scan_from(frs[f2], cols, pv, 0)
            + scan_from(frs, cols, pv, f2 + 1));
    }
    assert(sv + frag_scan_from(frs[cf], cols, pv, co) + scan_from(frs, cols, pv, cf + 1)
        =~= sv + frag_scan_from(frs[f2], cols, pv, o2) + scan_from(frs, cols, pv, f2 + 1));
}

/// Emitting one live, filter-passing row moves the scan decomposition
/// one offset forward.
proof fn lemma_scan_push_step(
    sv0: Seq<(u64, Seq<ValueV>)>,
    sv1: Seq<(u64, Seq<ValueV>)>,
    frs: Seq<Fragment>,
    cols: Seq<ColumnDef>,
    pv: Option<Seq<Seq<CmpV>>>,
    f2: int,
    o2: int,
)
    requires
        0 <= f2 < frs.len(),
        0 <= o2 < frs[f2].nrows,
        frs[f2].live@[o2],
        opt_pred_holds(pv, frag_row(frs[f2], cols, o2)),
        sv1 == sv0 + seq![(((frs[f2].start_id + o2) as u64), frag_row(frs[f2], cols, o2))],
    ensures
        sv0 + frag_scan_from(frs[f2], cols, pv, o2) + scan_from(frs, cols, pv, f2 + 1) == sv1
            + frag_scan_from(frs[f2], cols, pv, o2 + 1) + scan_from(frs, cols, pv, f2 + 1),
{
    assert(frag_scan_from(frs[f2], cols, pv, o2) == seq![
        (((frs[f2].start_id + o2) as u64), frag_row(frs[f2], cols, o2)),
    ] + frag_scan_from(frs[f2], cols, pv, o2 + 1));
    assert(sv0 + frag_scan_from(frs[f2], cols, pv, o2) + scan_from(frs, cols, pv, f2 + 1)
        =~= sv1 + frag_scan_from(frs[f2], cols, pv, o2 + 1) + scan_from(
        frs,
        cols,
        pv,
        f2 + 1,
    ));
}

/// With an empty snapshot, nothing below the watermark is live.
proof fn lemma_remainder_covered_empty(
    entries: Seq<(usize, usize)>,
    frs: Seq<Fragment>,
    cols: Seq<ColumnDef>,
    pv: Option<Seq<Seq<CmpV>>>,
    wm: usize,
)
    requires
        wm <= frs.len(),
        entries.len() == 0,
        forall|f: int, o: int|
            f < wm && #[trigger] live_at(frs, f, o) ==> entries.contains(
                (f as usize, o as usize),
            ),
    ensures
        scan_from(frs, cols, pv, 0) == scan_from(frs, cols, pv, wm as int),
{
    assert forall|f: int, o: int|
        (0 <= f < wm && 0 <= o < frs[f].nrows) implies !(#[trigger] frs[f].live@[o]) by {
        if frs[f].live@[o] {
            assert(live_at(frs, f, o));
            assert(entries.contains((f as usize, o as usize)));
            assert(false);
        }
    }
    lemma_scan_skip_dead_frags(frs, cols, pv, 0, wm as int);
}

/// After the last index entry, nothing below the watermark is live:
/// the rest of the covered region scans to nothing.
proof fn lemma_remainder_after_entries(
    sv: Seq<(u64, Seq<ValueV>)>,
    entries: Seq<(usize, usize)>,
    frs: Seq<Fragment>,
    cols: Seq<ColumnDef>,
    pv: Option<Seq<Seq<CmpV>>>,
    wm: usize,
    cf: int,
    co: int,
)
    requires
        wm <= frs.len(),
        forall|f: int, o: int|
            f < wm && #[trigger] live_at(frs, f, o) ==> entries.contains(
                (f as usize, o as usize),
            ),
        0 <= cf < wm,
        0 <= co <= frs[cf].nrows,
        forall|j: int|
            0 <= j < entries.len() ==> ((#[trigger] entries[j]).0 < cf || (entries[j].0 == cf
                && entries[j].1 < co)),
    ensures
        sv + frag_scan_from(frs[cf], cols, pv, co) + scan_from(frs, cols, pv, cf + 1) == sv
            + scan_from(frs, cols, pv, wm as int),
{
    assert forall|f: int, o: int|
        ((cf < f || (cf == f && co <= o)) && f < wm && 0 <= f < frs.len() && 0 <= o
            < frs[f].nrows) implies !(#[trigger] frs[f].live@[o]) by {
        if frs[f].live@[o] {
            assert(live_at(frs, f, o));
            assert(entries.contains((f as usize, o as usize)));
            let j = choose|j: int|
                0 <= j < entries.len() && entries[j] == (f as usize, o as usize);
            assert(entries[j].0 < cf || (entries[j].0 == cf && entries[j].1 < co));
            assert(false);
        }
    }
    lemma_frag_scan_skip_dead(frs[cf], cols, pv, co, frs[cf].nrows as int);
    assert(frag_scan_from(frs[cf], cols, pv, frs[cf].nrows as int)
        =~= Seq::<(u64, Seq<ValueV>)>::empty());
    lemma_scan_skip_dead_frags(frs, cols, pv, cf + 1, wm as int);
    assert(sv + frag_scan_from(frs[cf], cols, pv, co) + scan_from(frs, cols, pv, cf + 1)
        =~= sv + scan_from(frs, cols, pv, wm as int));
}

/// Freshness over staleness: a query result never hides a nearer row.
/// [`Table::search`] promises, for every live filtered row, that its id
/// is among the hits or every hit ranks at or before it; so if any hit
/// ranks strictly after the row, that is, the row is nearer than what
/// was returned, then the row's id is among the hits. Rows added after an index
/// build are live rows like any others, so this covers them.
pub proof fn lemma_nearer_rows_are_returned(hits: Seq<Hit>, d: int, id: u64)
    requires
        id_in_hits(hits, id) || all_hits_at_or_before(hits, d, id),
        exists|i: int| 0 <= i < hits.len() && !hit_at_or_before(#[trigger] hits[i], d, id),
    ensures
        id_in_hits(hits, id),
{
}

/// The vector column of a stored row holds exactly `d` elements.
pub proof fn lemma_frag_vector_value(f: Fragment, cols: Seq<ColumnDef>, vc: int, d: usize, o: int)
    requires
        f.wf_for(cols),
        0 <= vc < cols.len(),
        cols[vc].ctype == ColumnType::FixedSizeVector(d),
        0 <= o < f.nrows,
    ensures
        frag_row(f, cols, o)[vc] matches ValueV::Vector(v) && v.len() == d,
{
    assert(crate::codec::col_wf(f.cols@[vc], cols[vc].ctype, f.nrows as int));
    match f.cols@[vc] {
        crate::codec::ColumnData::Vector(flat) => {
            vstd::arithmetic::mul::lemma_mul_inequality(o + 1, f.nrows as int, d as int);
            assert((o + 1) * d == o * d + d) by (nonlinear_arith);
            assert(o * d >= 0) by (nonlinear_arith)
                requires
                    o >= 0,
                    d >= 0,
            ;
            assert(frag_row(f, cols, o)[vc] == col_value_at(f.cols@[vc], cols[vc].ctype, o));
        },
        _ => {
            assert(false);
        },
    }
}

} // verus!
