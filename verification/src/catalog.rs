//! The database catalog: a database owns a set of uniquely named
//! tables rooted at a storage URI, and a catalog maps URIs to
//! databases so that repeated connects to the same URI within a
//! process reach the same database.

use vstd::prelude::*;

verus! {

use crate::error::Error;
use crate::schema::{ColumnDef, Schema};
use crate::table::Table;
use crate::value::{Value, bytes_eq};

/// One database: a storage root and the tables under it.
pub struct Database {
    pub uri: Vec<u8>,
    pub tables: Vec<Table>,
}

/// The index of the first table with this name.
pub open spec fn spec_table_named(tables: Seq<Table>, name: Seq<u8>, i: int) -> Option<usize>
    decreases tables.len() - i,
{
    if i < 0 || i >= tables.len() {
        None
    } else if tables[i].name@ == name {
        Some(i as usize)
    } else {
        spec_table_named(tables, name, i + 1)
    }
}

/// No table carries the name exactly when the search finds none.
pub proof fn lemma_table_named_none(tables: Seq<Table>, name: Seq<u8>, i: int)
    requires
        0 <= i <= tables.len(),
    ensures
        spec_table_named(tables, name, i) is None <==> (forall|j: int|
            i <= j < tables.len() ==> (#[trigger] tables[j]).name@ != name),
    decreases tables.len() - i,
{
    if i < tables.len() {
        lemma_table_named_none(tables, name, i + 1);
    }
}

/// A found index is in range, carries the name, and is the first.
pub proof fn lemma_table_named_found(tables: Seq<Table>, name: Seq<u8>, i: int)
    requires
        0 <= i <= tables.len(),
        tables.len() <= usize::MAX,
    ensures
        match spec_table_named(tables, name, i) {
            Some(h) => i <= h < tables.len() && tables[h as int].name@ == name,
            None => true,
        },
    decreases tables.len() - i,
{
    if i < tables.len() && tables[i].name@ != name {
        lemma_table_named_found(tables, name, i + 1);
    }
}

impl Database {
    /// All tables are well formed, none is dropped, and names are
    /// unique.
    pub open spec fn wf(self) -> bool {
        &&& forall|i: int|
            0 <= i < self.tables@.len() ==> (#[trigger] self.tables@[i]).wf()
                && !self.tables@[i].dropped
        &&& forall|i: int, j: int|
            0 <= i < j < self.tables@.len() ==> (#[trigger] self.tables@[i]).name@ != (
            #[trigger] self.tables@[j]).name@
    }

    /// Open or create the database rooted at this URI, with no tables
    /// yet.
    pub fn connect(uri: Vec<u8>) -> (db: Database)
        ensures
            db.wf(),
            db.uri@ == uri@,
            db.tables@.len() == 0,
    {
        Database { uri, tables: Vec::new() }
    }

    /// Find a table by name.
    fn table_named(&self, name: &Vec<u8>) -> (r: Option<usize>)
        ensures
            r == spec_table_named(self.tables@, name@, 0),
    {
        let n = self.tables.len();
        let mut i: usize = 0;
        while i < n
            invariant
                i <= n,
                n == self.tables@.len(),
                spec_table_named(self.tables@, name@, 0) == spec_table_named(
                    self.tables@,
                    name@,
                    i as int,
                ),
            decreases n - i,
        {
            if bytes_eq(&self.tables[i].name, name) {
                return Some(i);
            }
            i += 1;
        }
        None
    }

    /// Create an empty table under this name. Fails with
    /// `AlreadyExists` if the name is taken, and with the schema's
    /// leftmost defect if the column list is invalid.
    pub fn create_empty_table(&mut self, name: Vec<u8>, cols: Vec<ColumnDef>) -> (r: Result<
        usize,
        Error,
    >)
        requires
            old(self).wf(),
        ensures
            final(self).wf(),
            final(self).uri == old(self).uri,
            match r {
                Ok(h) => {
                    &&& spec_table_named(old(self).tables@, name@, 0) is None
                    &&& crate::schema::first_issue_from(cols@, 0) is None
                    &&& h == old(self).tables@.len()
                    &&& final(self).tables@.len() == old(self).tables@.len() + 1
                    &&& final(self).tables@.drop_last() == old(self).tables@
                    &&& final(self).tables@.last().name@ == name@
                    &&& final(self).tables@.last().schema.cols@ == cols@
                    &&& final(self).tables@.last().frags@.len() == 0
                    &&& final(self).tables@.last().next_id == 0
                },
                Err(e) => {
                    &&& *final(self) == *old(self)
                    &&& match spec_table_named(old(self).tables@, name@, 0) {
                        Some(_) => e == Error::AlreadyExists,
                        None => match crate::schema::first_issue_from(cols@, 0) {
                            Some(se) => e == Error::Schema(se),
                            None => false,
                        },
                    }
                },
            },
    {
        if self.table_named(&name).is_some() {
            return Err(Error::AlreadyExists);
        }
        let schema = match Schema::define(cols) {
            Err(se) => {
                return Err(Error::Schema(se));
            },
            Ok(s) => s,
        };
        let t = Table::create(name, schema);
        let h = self.tables.len();
        let ghost tables0 = self.tables@;
        self.tables.push(t);
        proof {
            assert(self.tables@.drop_last() =~= tables0);
            lemma_table_named_none(tables0, self.tables@.last().name@, 0);
        }
        Ok(h)
    }

    /// Create a table under this name and fill it with an initial
    /// batch, atomically: on any error no table is created. Fails like
    /// [`Database::create_empty_table`] on the name and the columns,
    /// and like [`Table::add`] on the batch.
    pub fn create_table(
        &mut self,
        name: Vec<u8>,
        cols: Vec<ColumnDef>,
        batch: &Vec<Vec<Value>>,
    ) -> (r: Result<usize, Error>)
        requires
            old(self).wf(),
            batch@.len() <= u64::MAX,
        ensures
            final(self).wf(),
            final(self).uri == old(self).uri,
            match r {
                Ok(h) => {
                    &&& spec_table_named(old(self).tables@, name@, 0) is None
                    &&& crate::schema::first_issue_from(cols@, 0) is None
                    &&& h == old(self).tables@.len()
                    &&& final(self).tables@.len() == old(self).tables@.len() + 1
                    &&& final(self).tables@.drop_last() == old(self).tables@
                    &&& final(self).tables@.last().name@ == name@
                    &&& final(self).tables@.last().schema.cols@ == cols@
                    &&& final(self).tables@.last().frags@.len() == 1
                    &&& final(self).tables@.last().frags@[0].spec_rows(cols@)
                        == crate::value::batch_view(batch@)
                    &&& final(self).tables@.last().next_id == batch@.len()
                },
                Err(e) => {
                    &&& *final(self) == *old(self)
                    &&& match spec_table_named(old(self).tables@, name@, 0) {
                        Some(_) => e == Error::AlreadyExists,
                        None => match crate::schema::first_issue_from(cols@, 0) {
                            Some(se) => e == Error::Schema(se),
                            None => match crate::schema::first_batch_issue_from(
                                cols@,
                                crate::value::batch_view(batch@),
                                0,
                            ) {
                                Some(se) => e == Error::Schema(se),
                                None => match Schema::spec_vector_col_from(cols@, 0) {
                                    Some(vc) => crate::codec::first_ragged_row(
                                        match cols@[vc as int].ctype {
                                            crate::schema::ColumnType::FixedSizeVector(d) => d,
                                            _ => 0,
                                        },
                                        vc as int,
                                        crate::value::batch_view(batch@),
                                        0,
                                    ) matches Some(rr) && e == Error::Encoding(
                                        crate::error::EncodingError::WrongVectorLength {
                                            column: vc,
                                            row: rr,
                                        },
                                    ),
                                    None => false,
                                },
                            },
                        },
                    }
                },
            },
    {
        if self.table_named(&name).is_some() {
            return Err(Error::AlreadyExists);
        }
        let schema = match Schema::define(cols) {
            Err(se) => {
                return Err(Error::Schema(se));
            },
            Ok(s) => s,
        };
        let mut t = Table::create(name, schema);
        match t.add(batch) {
            Err(e) => {
                proof {
                    assert(!(e == Error::AlreadyExists));
                }
                return Err(e);
            },
            Ok(_) => {},
        }
        let h = self.tables.len();
        let ghost tables0 = self.tables@;
        self.tables.push(t);
        proof {
            assert(self.tables@.drop_last() =~= tables0);
            lemma_table_named_none(tables0, self.tables@.last().name@, 0);
            assert(self.tables@.last().frags@[0] == self.tables@.last().frags@.last());
        }
        Ok(h)
    }

    /// Open the table of this name: its handle, or `NotFound` exactly
    /// when no table carries the name.
    pub fn open_table(&self, name: &Vec<u8>) -> (r: Result<usize, Error>)
        requires
            self.wf(),
        ensures
            match r {
                Ok(h) => spec_table_named(self.tables@, name@, 0) == Some(h) && h
                    < self.tables@.len() && self.tables@[h as int].name@ == name@,
                Err(e) => e == Error::NotFound && spec_table_named(self.tables@, name@, 0)
                    is None,
            },
    {
        proof {
            assert(self.tables.len() == self.tables@.len());
            lemma_table_named_found(self.tables@, name@, 0);
        }
        match self.table_named(name) {
            Some(h) => Ok(h),
            None => Err(Error::NotFound),
        }
    }

    /// Drop the table of this name: remove it and free its storage.
    /// Irreversible; afterwards the name is free again. Fails with
    /// `NotFound` exactly when no table carries the name.
    pub fn drop_table(&mut self, name: &Vec<u8>) -> (r: Result<(), Error>)
        requires
            old(self).wf(),
        ensures
            final(self).wf(),
            final(self).uri == old(self).uri,
            match r {
                Ok(_) => {
                    &&& spec_table_named(old(self).tables@, name@, 0) matches Some(h)
                        && final(self).tables@ == old(self).tables@.remove(h as int)
                    &&& spec_table_named(final(self).tables@, name@, 0) is None
                },
                Err(e) => *final(self) == *old(self) && e == Error::NotFound
                    && spec_table_named(old(self).tables@, name@, 0) is None,
            },
    {
        proof {
            assert(self.tables.len() == self.tables@.len());
            lemma_table_named_found(self.tables@, name@, 0);
        }
        let h = match self.table_named(name) {
            None => {
                return Err(Error::NotFound);
            },
            Some(h) => h,
        };
        let ghost tables0 = self.tables@;
        let mut t = self.tables.remove(h);
        t.drop_now();
        proof {
            assert forall|j: int|
                0 <= j < self.tables@.len() implies (#[trigger] self.tables@[j]).name@
                != name@ by {
                if j < h {
                    assert(self.tables@[j] == tables0[j]);
                    assert(tables0[j].name@ != tables0[h as int].name@);
                } else {
                    assert(self.tables@[j] == tables0[j + 1]);
                    assert(tables0[h as int].name@ != tables0[j + 1].name@);
                }
            }
            lemma_table_named_none(self.tables@, name@, 0);
            assert forall|i: int, j: int|
                0 <= i < j < self.tables@.len() implies (#[trigger] self.tables@[i]).name@ != (
            #[trigger] self.tables@[j]).name@ by {
                if j < h {
                } else if i < h {
                    assert(self.tables@[i] == tables0[i]);
                    assert(self.tables@[j] == tables0[j + 1]);
                } else {
                    assert(self.tables@[i] == tables0[i + 1]);
                    assert(self.tables@[j] == tables0[j + 1]);
                }
            }
        }
        Ok(())
    }

    /// Drop the whole database: every table is removed unconditionally.
    pub fn drop_database(&mut self)
        requires
            old(self).wf(),
        ensures
            final(self).wf(),
            final(self).uri == old(self).uri,
            final(self).tables@.len() == 0,
    {
        self.tables = Vec::new();
    }

    /// Borrow a table by handle.
    pub fn table(&self, h: usize) -> (t: &Table)
        requires
            h < self.tables@.len(),
        ensures
            *t == self.tables@[h as int],
    {
        &self.tables[h]
    }

    /// Borrow a table by handle for mutation. The database afterwards
    /// holds whatever the caller made of the table; the other tables
    /// are untouched.
    pub fn table_mut(&mut self, h: usize) -> (t: &mut Table)
        requires
            h < old(self).tables@.len(),
        ensures
            *t == old(self).tables@[h as int],
            final(self).uri == old(self).uri,
            final(self).tables@ == old(self).tables@.update(h as int, *final(t)),
    {
        proof {
            assert(old(self).tables@.update(h as int, old(self).tables@[h as int])
                =~= old(self).tables@);
        }
        &mut self.tables[h]
    }
}

/// The index of the first database rooted at this URI.
pub open spec fn spec_db_at(dbs: Seq<Database>, uri: Seq<u8>, i: int) -> Option<usize>
    decreases dbs.len() - i,
{
    if i < 0 || i >= dbs.len() {
        None
    } else if dbs[i].uri@ == uri {
        Some(i as usize)
    } else {
        spec_db_at(dbs, uri, i + 1)
    }
}

/// The process-wide catalog of databases, keyed by URI.
pub struct Catalog {
    pub dbs: Vec<Database>,
}

impl Catalog {
    pub open spec fn wf(self) -> bool {
        forall|i: int| 0 <= i < self.dbs@.len() ==> (#[trigger] self.dbs@[i]).wf()
    }

    /// An empty catalog: the process starts with no database open.
    pub fn new() -> (c: Catalog)
        ensures
            c.wf(),
            c.dbs@.len() == 0,
    {
        Catalog { dbs: Vec::new() }
    }

    /// Connect to the database rooted at this URI: idempotent within
    /// the catalog, a second connect to the same URI yields the same
    /// handle and changes nothing.
    #[verifier::loop_isolation(false)]
    pub fn connect(&mut self, uri: &Vec<u8>) -> (h: usize)
        requires
            old(self).wf(),
        ensures
            final(self).wf(),
            h < final(self).dbs@.len(),
            final(self).dbs@[h as int].uri@ == uri@,
            match spec_db_at(old(self).dbs@, uri@, 0) {
                Some(h0) => h == h0 && *final(self) == *old(self),
                None => {
                    &&& h == old(self).dbs@.len()
                    &&& final(self).dbs@.drop_last() == old(self).dbs@
                    &&& final(self).dbs@.last().uri@ == uri@
                    &&& final(self).dbs@.last().tables@.len() == 0
                },
            },
    {
        let n = self.dbs.len();
        let mut i: usize = 0;
        while i < n
            invariant
                i <= n,
                n == self.dbs@.len(),
                spec_db_at(self.dbs@, uri@, 0) == spec_db_at(self.dbs@, uri@, i as int),
            decreases n - i,
        {
            if bytes_eq(&self.dbs[i].uri, uri) {
                proof {
                    assert(self.wf());
                }
                return i;
            }
            i += 1;
        }
        let mut u: Vec<u8> = Vec::new();
        let ulen = uri.len();
        let mut k: usize = 0;
        while k < ulen
            invariant
                k <= ulen,
                ulen == uri@.len(),
                u@ == uri@.subrange(0, k as int),
            decreases ulen - k,
        {
            u.push(uri[k]);
            proof {
                assert(uri@.subrange(0, k as int) + seq![uri@[k as int]] =~= uri@.subrange(
                    0,
                    k as int + 1,
                ));
            }
            k += 1;
        }
        proof {
            assert(u@ =~= uri@);
        }
        let db = Database::connect(u);
        let ghost dbs0 = self.dbs@;
        self.dbs.push(db);
        proof {
            assert(self.dbs@.drop_last() =~= dbs0);
        }
        n
    }

    /// Borrow a database by handle.
    pub fn database(&self, h: usize) -> (db: &Database)
        requires
            h < self.dbs@.len(),
        ensures
            *db == self.dbs@[h as int],
    {
        &self.dbs[h]
    }

    /// Borrow a database by handle for mutation.
    pub fn database_mut(&mut self, h: usize) -> (db: &mut Database)
        requires
            h < old(self).dbs@.len(),
        ensures
            *db == old(self).dbs@[h as int],
            final(self).dbs@ == old(self).dbs@.update(h as int, *final(db)),
    {
        proof {
            assert(old(self).dbs@.update(h as int, old(self).dbs@[h as int])
                =~= old(self).dbs@);
        }
        &mut self.dbs[h]
    }
}

} // verus!
