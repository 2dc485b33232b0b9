//! The metadata store: a single table of `Manga` rows with unique hash,
//! name and normalized name, supporting upsert, lookup by normalized name,
//! status-filtered listing and deletion.
//!
//! The store keeps the table in memory; the surrounding program mirrors
//! every change into its durable database file. A dropped table is modelled
//! explicitly, so that operations against a dropped store fail the way the
//! durable one would.

use vstd::prelude::*;

use crate::error::MgdlError;
use crate::models::{Manga, MangaV};
use crate::strings::str_eq;

verus! {

/// The mathematical value of the store: whether the table exists, and its
/// rows in insertion order.
pub ghost struct DbV {
    pub table_exists: bool,
    pub rows: Seq<MangaV>,
}

pub struct Db {
    table_exists: bool,
    rows: Vec<Manga>,
}

impl View for Db {
    type V = DbV;

    closed spec fn view(&self) -> DbV {
        DbV {
            table_exists: self.table_exists,
            rows: self.rows@.map_values(|m: Manga| m@),
        }
    }
}

/// Some row other than the one named `m.name` already uses `m`'s hash or
/// normalized name: the unique constraints reject the write.
pub open spec fn row_conflicts(rows: Seq<MangaV>, m: MangaV) -> bool {
    exists|i: int|
        0 <= i < rows.len() && rows[i].name != m.name && (rows[i].hash == m.hash
            || rows[i].normalized_name == m.normalized_name)
}

/// Whether some row carries this normalized name.
pub open spec fn has_normalized_name(rows: Seq<MangaV>, normalized_name: Seq<char>) -> bool {
    exists|i: int| 0 <= i < rows.len() && rows[i].normalized_name == normalized_name
}

/// The table after an upsert: the first row with the incoming name is
/// replaced by the incoming record, and a record under a fresh name is
/// appended.
pub open spec fn spec_upsert_rows(rows: Seq<MangaV>, m: MangaV) -> Seq<MangaV>
    decreases rows.len(),
{
    if rows.len() == 0 {
        seq![m]
    } else if rows[0].name == m.name {
        seq![m] + rows.drop_first()
    } else {
        seq![rows[0]] + spec_upsert_rows(rows.drop_first(), m)
    }
}

/// Pairwise distinctness of hash, name and normalized name.
pub open spec fn rows_distinct(rows: Seq<MangaV>) -> bool {
    forall|i: int, j: int|
        0 <= i < j < rows.len() ==> {
            &&& (#[trigger] rows[i]).name != (#[trigger] rows[j]).name
            &&& rows[i].normalized_name != rows[j].normalized_name
            &&& rows[i].hash != rows[j].hash
        }
}

/// Filtering a table with pairwise-distinct key fields keeps them
/// pairwise distinct, and introduces no row that was not there.
proof fn lemma_filter_distinct(rows: Seq<MangaV>, pred: spec_fn(MangaV) -> bool)
    requires
        rows_distinct(rows),
    ensures
        rows_distinct(rows.filter(pred)),
        forall|x: MangaV| #[trigger] rows.filter(pred).contains(x) ==> rows.contains(x),
    decreases rows.len(),
{
    reveal(Seq::filter);
    if rows.len() == 0 {
    } else {
        let head = rows.drop_last();
        let last = rows.last();
        assert(rows_distinct(head)) by {
            assert(forall|i: int|
                0 <= i < head.len() ==> #[trigger] head[i] == rows[i]);
        }
        lemma_filter_distinct(head, pred);
        assert forall|x: MangaV| #[trigger] head.contains(x) implies rows.contains(x) by {
            let k = choose|k: int| 0 <= k < head.len() && head[k] == x;
            assert(rows[k] == x);
        }
        if pred(last) {
            let f = head.filter(pred).push(last);
            assert(rows.filter(pred) == f);
            assert(rows.contains(last)) by {
                assert(rows[rows.len() - 1] == last);
            }
            assert forall|x: MangaV| #[trigger] f.contains(x) implies rows.contains(x) by {
                let k = choose|k: int| 0 <= k < f.len() && f[k] == x;
                if k < f.len() - 1 {
                    assert(head.filter(pred)[k] == x);
                    assert(head.filter(pred).contains(x));
                } else {
                    assert(x == last);
                }
            }
            assert forall|a: int, b: int| 0 <= a < b < f.len() implies (#[trigger] f[a]).name != (
            #[trigger] f[b]).name && f[a].normalized_name != f[b].normalized_name && f[a].hash
                != f[b].hash by {
                if b == f.len() - 1 {
                    // f[a] is a row of head; last is the final row of rows.
                    assert(head.filter(pred)[a] == f[a]);
                    assert(head.filter(pred).contains(f[a]));
                    let k = choose|k: int| 0 <= k < head.len() && head[k] == f[a];
                    assert(rows[k] == f[a]);
                    assert(rows[rows.len() - 1] == last);
                }
            }
        } else {
            assert(rows.filter(pred) == head.filter(pred));
        }
    }
}

/// Every row of an upserted table is the incoming record or a row of the
/// old table.
proof fn lemma_upsert_rows_membership(rows: Seq<MangaV>, m: MangaV)
    ensures
        forall|j: int|
            0 <= j < spec_upsert_rows(rows, m).len() ==> #[trigger] spec_upsert_rows(rows, m)[j]
                == m || rows.contains(spec_upsert_rows(rows, m)[j]),
    decreases rows.len(),
{
    if rows.len() == 0 {
    } else if rows[0].name == m.name {
        assert forall|j: int| 0 <= j < spec_upsert_rows(rows, m).len() implies
            #[trigger] spec_upsert_rows(rows, m)[j] == m || rows.contains(
            spec_upsert_rows(rows, m)[j],
        ) by {
            if j > 0 {
                assert(spec_upsert_rows(rows, m)[j] == rows[j]);
            }
        }
    } else {
        let rest = rows.drop_first();
        lemma_upsert_rows_membership(rest, m);
        assert forall|j: int| 0 <= j < spec_upsert_rows(rows, m).len() implies
            #[trigger] spec_upsert_rows(rows, m)[j] == m || rows.contains(
            spec_upsert_rows(rows, m)[j],
        ) by {
            if j > 0 {
                let x = spec_upsert_rows(rows, m)[j];
                assert(x == spec_upsert_rows(rest, m)[j - 1]);
                if x != m {
                    let k = choose|k: int| 0 <= k < rest.len() && rest[k] == x;
                    assert(rows[k + 1] == x);
                }
            }
        }
    }
}

/// Upserting the same record twice leaves the table exactly as one upsert
/// leaves it, and a second upsert of a record that the table accepted can
/// never hit a unique-constraint conflict.
pub proof fn lemma_upsert_idempotent(rows: Seq<MangaV>, m: MangaV)
    ensures
        spec_upsert_rows(spec_upsert_rows(rows, m), m) == spec_upsert_rows(rows, m),
        !row_conflicts(rows, m) ==> !row_conflicts(spec_upsert_rows(rows, m), m),
    decreases rows.len(),
{
    let once = spec_upsert_rows(rows, m);
    if rows.len() == 0 {
        assert(once == seq![m]);
        assert(spec_upsert_rows(once, m) =~= once);
    } else if rows[0].name == m.name {
        assert(once[0] == m);
        assert(spec_upsert_rows(once, m) =~= seq![m] + once.drop_first());
        assert(seq![m] + once.drop_first() =~= once);
    } else {
        let rest = rows.drop_first();
        lemma_upsert_idempotent(rest, m);
        assert(once == seq![rows[0]] + spec_upsert_rows(rest, m));
        assert(once[0] == rows[0]);
        assert(once.drop_first() =~= spec_upsert_rows(rest, m));
        assert(spec_upsert_rows(once, m) =~= seq![rows[0]] + spec_upsert_rows(
            spec_upsert_rows(rest, m),
            m,
        ));
        assert(spec_upsert_rows(once, m) =~= once);
    }
    if !row_conflicts(rows, m) {
        lemma_upsert_rows_membership(rows, m);
        assert forall|j: int| 0 <= j < once.len() implies !((#[trigger] once[j]).name != m.name
            && (once[j].hash == m.hash || once[j].normalized_name == m.normalized_name)) by {
            if once[j] != m && once[j].name != m.name {
                let k = choose|k: int| 0 <= k < rows.len() && rows[k] == once[j];
                assert(!(rows[k].name != m.name && (rows[k].hash == m.hash
                    || rows[k].normalized_name == m.normalized_name)));
            }
        }
    }
}

proof fn lemma_upsert_rows_skip(rows: Seq<MangaV>, m: MangaV, i: int)
    requires
        0 <= i <= rows.len(),
        forall|j: int| 0 <= j < i ==> rows[j].name != m.name,
    ensures
        spec_upsert_rows(rows, m) == rows.take(i) + spec_upsert_rows(rows.skip(i), m),
    decreases i,
{
    if i == 0 {
        assert(rows.skip(0) == rows);
        assert(rows.take(0) + spec_upsert_rows(rows, m) =~= spec_upsert_rows(rows, m));
    } else {
        let rest = rows.drop_first();
        lemma_upsert_rows_skip(rest, m, i - 1);
        assert(rows.skip(i) =~= rest.skip(i - 1));
        assert(rows.take(i) =~= seq![rows[0]] + rest.take(i - 1));
        assert(rows.take(i) + spec_upsert_rows(rows.skip(i), m) =~= seq![rows[0]] + (rest.take(
            i - 1,
        ) + spec_upsert_rows(rest.skip(i - 1), m)));
    }
}

impl Db {
    /// Rows satisfy the table's unique constraints: no two rows share a
    /// hash, a name or a normalized name, and a dropped table has no rows.
    pub closed spec fn wf(&self) -> bool {
        &&& rows_distinct(self@.rows)
        &&& !self@.table_exists ==> self@.rows.len() == 0
    }

    /// A fresh store with an empty table.
    pub fn new() -> (db: Db)
        ensures
            db.wf(),
            db@.table_exists,
            db@.rows.len() == 0,
    {
        let db = Db { table_exists: true, rows: Vec::new() };
        proof {
            assert(db@.rows =~= Seq::<MangaV>::empty());
        }
        db
    }

    /// Creates the table if it does not exist; rows of an existing table
    /// are kept.
    pub fn create(&mut self) -> (r: Result<(), MgdlError>)
        requires
            old(self).wf(),
        ensures
            final(self).wf(),
            r is Ok,
            final(self)@.table_exists,
            final(self)@.rows == old(self)@.rows,
    {
        self.table_exists = true;
        Ok(())
    }

    /// Creates the table, as `create` does.
    pub fn init(&mut self) -> (r: Result<(), MgdlError>)
        requires
            old(self).wf(),
        ensures
            final(self).wf(),
            r is Ok,
            final(self)@.table_exists,
            final(self)@.rows == old(self)@.rows,
    {
        self.create()
    }

    /// Drops the table and everything in it.
    pub fn drop_table(&mut self) -> (r: Result<(), MgdlError>)
        requires
            old(self).wf(),
        ensures
            final(self).wf(),
            r is Ok,
            !final(self)@.table_exists,
            final(self)@.rows.len() == 0,
    {
        self.table_exists = false;
        self.rows.clear();
        proof {
            assert(self@.rows =~= Seq::<MangaV>::empty());
        }
        Ok(())
    }

    /// Inserts the record, or replaces the row that already carries its
    /// name. Fails when the table is missing, or when the record's hash or
    /// normalized name is already taken by a row with a different name.
    pub fn upsert_manga(&mut self, manga: Manga) -> (r: Result<Manga, MgdlError>)
        requires
            old(self).wf(),
        ensures
            final(self).wf(),
            ({
                let ok = old(self)@.table_exists && !row_conflicts(old(self)@.rows, manga@);
                &&& r is Ok <==> ok
                &&& ok ==> {
                    &&& (r->Ok_0)@ == manga@
                    &&& final(self)@.rows == spec_upsert_rows(old(self)@.rows, manga@)
                    &&& final(self)@.table_exists
                }
                &&& !ok ==> final(self)@ == old(self)@ && r->Err_0 is Db
            }),
    {
        if !self.table_exists {
            return Err(MgdlError::Db(String::from_str("no such table: mangas")));
        }
        // Check the unique constraints against every row under another name.
        let ghost rows0 = self@.rows;
        let n = self.rows.len();
        let mut i: usize = 0;
        while i < n
            invariant
                n == self.rows.len(),
                i <= n,
                forall|j: int|
                    0 <= j < i ==> !(#[trigger] rows0[j].name != manga@.name && (rows0[j].hash
                        == manga@.hash || rows0[j].normalized_name == manga@.normalized_name)),
                rows0 == self@.rows,
                rows0 == old(self)@.rows,
                self@.table_exists,
                old(self)@.table_exists,
                rows_distinct(rows0),
            decreases n - i,
        {
            let row = &self.rows[i];
            if !row.name.eq(&manga.name) && (row.hash.eq(&manga.hash) || row.normalized_name.eq(
                &manga.normalized_name,
            )) {
                proof {
                    assert(rows0[i as int] == self.rows@[i as int]@);
                    assert(rows0[i as int].name != manga@.name && (rows0[i as int].hash
                        == manga@.hash || rows0[i as int].normalized_name
                        == manga@.normalized_name));
                    assert(row_conflicts(old(self)@.rows, manga@));
                }
                return Err(MgdlError::Db(String::from_str("UNIQUE constraint failed")));
            }
            i = i + 1;
        }
        assert(!row_conflicts(rows0, manga@));
        // Replace the row that carries this name, or append.
        let mut k: usize = 0;
        while k < n
            invariant
                n == self.rows.len(),
                k <= n,
                forall|j: int| 0 <= j < k ==> (#[trigger] rows0[j].name) != manga@.name,
                rows0 == self@.rows,
                rows0 == old(self)@.rows,
                self@.table_exists,
                old(self)@.table_exists,
                rows_distinct(rows0),
                !row_conflicts(rows0, manga@),
            decreases n - k,
        {
            if self.rows[k].name.eq(&manga.name) {
                let result = manga.duplicate();
                proof {
                    lemma_upsert_rows_skip(rows0, manga@, k as int);
                    assert(rows0.skip(k as int)[0] == rows0[k as int]);
                    assert(spec_upsert_rows(rows0.skip(k as int), manga@) =~= seq![manga@]
                        + rows0.skip(k as int).drop_first());
                    assert(rows0.take(k as int) + (seq![manga@] + rows0.skip(
                        k as int,
                    ).drop_first()) =~= rows0.update(k as int, manga@));
                }
                self.rows.set(k, manga);
                proof {
                    assert(self@.rows =~= rows0.update(k as int, manga@));
                    let rows1 = self@.rows;
                    assert forall|a: int, b: int| 0 <= a < b < rows1.len() implies (
                    #[trigger] rows1[a]).name != (#[trigger] rows1[b]).name
                        && rows1[a].normalized_name != rows1[b].normalized_name && rows1[a].hash
                        != rows1[b].hash by {
                        if a == k as int || b == k as int {
                            let other = if a == k as int { b } else { a };
                            assert(rows1[other] == rows0[other]);
                            assert(rows0[other].name != manga@.name);
                        }
                    }
                }
                return Ok(result);
            }
            k = k + 1;
        }
        proof {
            lemma_upsert_rows_skip(rows0, manga@, rows0.len() as int);
            assert(rows0.skip(rows0.len() as int) =~= Seq::<MangaV>::empty());
            assert(spec_upsert_rows(Seq::<MangaV>::empty(), manga@) =~= seq![manga@]);
            assert(rows0.take(rows0.len() as int) =~= rows0);
        }
        let result = manga.duplicate();
        self.rows.push(manga);
        proof {
            assert(self@.rows =~= rows0 + seq![manga@]);
            assert(rows0 + seq![manga@] =~= spec_upsert_rows(rows0, manga@));
            let rows1 = self@.rows;
            assert forall|a: int, b: int| 0 <= a < b < rows1.len() implies (
            #[trigger] rows1[a]).name != (#[trigger] rows1[b]).name && rows1[a].normalized_name
                != rows1[b].normalized_name && rows1[a].hash != rows1[b].hash by {
                if b == rows1.len() - 1 {
                    assert(rows1[a] == rows0[a]);
                    assert(rows0[a].name != manga@.name);
                }
            }
        }
        Ok(result)
    }

    /// Upserts the record, as `upsert_manga` does.
    pub fn add_manga(&mut self, manga: Manga) -> (r: Result<Manga, MgdlError>)
        requires
            old(self).wf(),
        ensures
            final(self).wf(),
            ({
                let ok = old(self)@.table_exists && !row_conflicts(old(self)@.rows, manga@);
                &&& r is Ok <==> ok
                &&& ok ==> {
                    &&& (r->Ok_0)@ == manga@
                    &&& final(self)@.rows == spec_upsert_rows(old(self)@.rows, manga@)
                    &&& final(self)@.table_exists
                }
                &&& !ok ==> final(self)@ == old(self)@ && r->Err_0 is Db
            }),
    {
        self.upsert_manga(manga)
    }

    /// Returns the row with this normalized name; fails when the table is
    /// missing or no row matches.
    pub fn get_manga_by_normalized_name(&self, normalized_name: &str) -> (r: Result<
        Manga,
        MgdlError,
    >)
        requires
            self.wf(),
        ensures
            r is Ok <==> self@.table_exists && has_normalized_name(self@.rows, normalized_name@),
            r is Ok ==> exists|i: int|
                0 <= i < self@.rows.len() && (r->Ok_0)@ == #[trigger] self@.rows[i]
                    && self@.rows[i].normalized_name == normalized_name@,
            r is Err ==> r->Err_0 is Db,
    {
        if !self.table_exists {
            return Err(MgdlError::Db(String::from_str("no such table: mangas")));
        }
        let n = self.rows.len();
        let mut i: usize = 0;
        while i < n
            invariant
                n == self.rows.len(),
                i <= n,
                forall|j: int|
                    0 <= j < i ==> (#[trigger] self@.rows[j].normalized_name) != normalized_name@,
                self@.table_exists,
            decreases n - i,
        {
            if str_eq(self.rows[i].normalized_name.as_str(), normalized_name) {
                let found = self.rows[i].duplicate();
                proof {
                    assert(self@.rows[i as int].normalized_name == normalized_name@);
                    assert(has_normalized_name(self@.rows, normalized_name@));
                    assert(found@ == self@.rows[i as int]);
                }
                return Ok(found);
            }
            i = i + 1;
        }
        Err(MgdlError::Db(String::from_str("no manga with this normalized name")))
    }

    /// Returns every row whose status is `Ongoing`, in table order; fails
    /// when the table is missing.
    pub fn get_ongoing_manga(&self) -> (r: Result<Vec<Manga>, MgdlError>)
        requires
            self.wf(),
        ensures
            r is Ok <==> self@.table_exists,
            r is Ok ==> (r->Ok_0)@.map_values(|m: Manga| m@) == self@.rows.filter(
                |row: MangaV| row.status == "Ongoing"@,
            ),
            r is Err ==> r->Err_0 is Db,
    {
        if !self.table_exists {
            return Err(MgdlError::Db(String::from_str("no such table: mangas")));
        }
        let n = self.rows.len();
        let mut out: Vec<Manga> = Vec::new();
        let mut i: usize = 0;
        proof {
            assert(self@.rows.take(0).filter(|row: MangaV| row.status == "Ongoing"@)
                =~= Seq::<MangaV>::empty()) by {
                reveal(Seq::filter);
            }
            assert(out@.map_values(|m: Manga| m@) =~= self@.rows.take(0).filter(
                |row: MangaV| row.status == "Ongoing"@,
            ));
        }
        while i < n
            invariant
                n == self.rows.len(),
                i <= n,
                out@.map_values(|m: Manga| m@) == self@.rows.take(i as int).filter(
                    |row: MangaV| row.status == "Ongoing"@,
                ),
            decreases n - i,
        {
            proof {
                assert(self@.rows.take(i + 1).drop_last() =~= self@.rows.take(i as int));
                assert(self@.rows.take(i + 1).last() == self@.rows[i as int]);
                reveal(Seq::filter);
            }
            if str_eq(self.rows[i].status.as_str(), "Ongoing") {
                let copy = self.rows[i].duplicate();
                let ghost prev = out@.map_values(|m: Manga| m@);
                out.push(copy);
                proof {
                    assert(out@.map_values(|m: Manga| m@) =~= prev.push(self@.rows[i as int]));
                    assert(out@.map_values(|m: Manga| m@) =~= self@.rows.take(i + 1).filter(
                        |row: MangaV| row.status == "Ongoing"@,
                    ));
                }
            } else {
                proof {
                    assert(out@.map_values(|m: Manga| m@) =~= self@.rows.take(i + 1).filter(
                        |row: MangaV| row.status == "Ongoing"@,
                    ));
                }
            }
            i = i + 1;
        }
        proof {
            assert(self@.rows.take(n as int) =~= self@.rows);
        }
        Ok(out)
    }

    /// Removes the row with this normalized name, if any; fails only when
    /// the table is missing.
    pub fn delete_manga_by_normalized_name(&mut self, normalized_name: &str) -> (r: Result<
        (),
        MgdlError,
    >)
        requires
            old(self).wf(),
        ensures
            final(self).wf(),
            r is Ok <==> old(self)@.table_exists,
            r is Ok ==> final(self)@.rows == old(self)@.rows.filter(
                |row: MangaV| row.normalized_name != normalized_name@,
            ) && final(self)@.table_exists,
            r is Err ==> final(self)@ == old(self)@ && r->Err_0 is Db,
    {
        if !self.table_exists {
            return Err(MgdlError::Db(String::from_str("no such table: mangas")));
        }
        let ghost rows0 = self@.rows;
        let mut out: Vec<Manga> = Vec::new();
        let n = self.rows.len();
        let mut i: usize = 0;
        proof {
            assert(rows0.take(0).filter(|row: MangaV| row.normalized_name != normalized_name@)
                =~= Seq::<MangaV>::empty()) by {
                reveal(Seq::filter);
            }
            assert(out@.map_values(|m: Manga| m@) =~= rows0.take(0).filter(
                |row: MangaV| row.normalized_name != normalized_name@,
            ));
        }
        while i < n
            invariant
                n == self.rows.len(),
                i <= n,
                rows0 == self@.rows,
                out@.map_values(|m: Manga| m@) == rows0.take(i as int).filter(
                    |row: MangaV| row.normalized_name != normalized_name@,
                ),
            decreases n - i,
        {
            proof {
                assert(rows0.take(i + 1).drop_last() =~= rows0.take(i as int));
                assert(rows0.take(i + 1).last() == rows0[i as int]);
                reveal(Seq::filter);
            }
            if !str_eq(self.rows[i].normalized_name.as_str(), normalized_name) {
                let copy = self.rows[i].duplicate();
                let ghost prev = out@.map_values(|m: Manga| m@);
                out.push(copy);
                proof {
                    assert(out@.map_values(|m: Manga| m@) =~= prev.push(rows0[i as int]));
                    assert(out@.map_values(|m: Manga| m@) =~= rows0.take(i + 1).filter(
                        |row: MangaV| row.normalized_name != normalized_name@,
                    ));
                }
            } else {
                proof {
                    assert(out@.map_values(|m: Manga| m@) =~= rows0.take(i + 1).filter(
                        |row: MangaV| row.normalized_name != normalized_name@,
                    ));
                }
            }
            i = i + 1;
        }
        proof {
            assert(rows0.take(n as int) =~= rows0);
        }
        self.rows = out;
        proof {
            lemma_filter_distinct(rows0, |row: MangaV| row.normalized_name != normalized_name@);
        }
        Ok(())
    }
}

} // verus!
