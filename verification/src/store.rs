use vstd::prelude::*;

use crate::error::StoreError;
use crate::csvtext::{chars_of, enc_records, encode_table, parse_records, parse_table};
use crate::order::{lemma_sorted_le_distinct_lt, sort_displays, sorted_le, sorted_lt};
use crate::record::{Alias, AliasDisplay};
use crate::timefmt::{format_rfc3339, parse_rfc3339, rfc3339_of, rfc3339_val, ts_valid, TS_MAX, TS_MIN};

verus! {

/// What the store keeps of one record besides its key: the command, the
/// description, and the two timestamps as the text the table holds.
pub type RowV = (Seq<char>, Seq<char>, Seq<char>, Seq<char>);

/// One row as the table hands it out: alias, command, description,
/// creation text, update text.
pub type RawRow = (String, String, String, String, String);

#[verifier::external_type_specification]
#[verifier::external_body]
pub struct ExConnection(rusqlite::Connection);

#[verifier::external_type_specification]
#[verifier::external_body]
pub struct ExSqlError(rusqlite::Error);

/// The rows of the `aliases` table behind a connection, keyed by the
/// alias name, in the text form the table stores.
pub uninterp spec fn table_of(conn: rusqlite::Connection) -> Map<Seq<char>, RowV>;

/// Relies on rusqlite's `Connection::open`: opens (creating if absent)
/// the database file at the given path.
#[verifier::external_body]
fn open_db(path: &str) -> (r: Result<rusqlite::Connection, rusqlite::Error>) {
    rusqlite::Connection::open(path)
}

/// Relies on rusqlite's `Connection::execute` running
/// `CREATE TABLE IF NOT EXISTS`: existing rows are left as they are.
#[verifier::external_body]
fn init_schema(conn: &mut rusqlite::Connection) -> (r: Result<(), rusqlite::Error>)
    ensures
        r is Ok ==> table_of(*final(conn)) == table_of(*old(conn)),
{
    match conn.execute(
        "CREATE TABLE IF NOT EXISTS aliases (
                alias TEXT PRIMARY KEY,
                command TEXT NOT NULL,
                description TEXT NOT NULL,
                date_created TEXT NOT NULL,
                date_updated TEXT NOT NULL
            )",
        (),
    ) {
        Ok(_) => Ok(()),
        Err(e) => Err(e),
    }
}

/// Relies on rusqlite's `Statement::exists` running
/// `SELECT 1 ... WHERE alias = ?1`: reports whether a row with this key
/// is in the table.
#[verifier::external_body]
fn row_exists(conn: &rusqlite::Connection, alias: &str) -> (r: Result<
    bool,
    rusqlite::Error,
>)
    ensures
        r is Ok ==> r->Ok_0 == table_of(*conn).contains_key(alias@),
{
    match conn.prepare("SELECT 1 FROM aliases WHERE alias = ?1") {
        Ok(mut stmt) => stmt.exists((alias,)),
        Err(e) => Err(e),
    }
}

/// Relies on rusqlite's `Connection::execute` running a single-row
/// `INSERT`: on success the table gains exactly this row; a failed
/// statement leaves the table as it was.
#[verifier::external_body]
fn insert_row(
    conn: &mut rusqlite::Connection,
    alias: &str,
    command: &str,
    description: &str,
    created: &str,
    updated: &str,
) -> (r: Result<(), rusqlite::Error>)
    requires
        !table_of(*old(conn)).contains_key(alias@),
    ensures
        r is Ok ==> table_of(*final(conn)) == table_of(*old(conn)).insert(
            alias@,
            (command@, description@, created@, updated@),
        ),
        r is Err ==> table_of(*final(conn)) == table_of(*old(conn)),
{
    match conn.execute(
        "INSERT INTO aliases (alias, command, description, date_created, date_updated)
             VALUES (?1, ?2, ?3, ?4, ?5)",
        (alias, command, description, created, updated),
    ) {
        Ok(_) => Ok(()),
        Err(e) => Err(e),
    }
}

/// Relies on rusqlite's `Connection::execute` running an `UPDATE` of
/// `command`, `description` and `date_updated` for one key: a present
/// key gets exactly those three fields replaced, an absent key leaves
/// the table as it was, and so does a failed statement.
#[verifier::external_body]
fn update_row(
    conn: &mut rusqlite::Connection,
    command: &str,
    description: &str,
    updated: &str,
    alias: &str,
) -> (r: Result<(), rusqlite::Error>)
    ensures
        r is Ok && table_of(*old(conn)).contains_key(alias@) ==> table_of(*final(conn)) == table_of(
            *old(conn),
        ).insert(
            alias@,
            (command@, description@, table_of(*old(conn))[alias@].2, updated@),
        ),
        r is Ok && !table_of(*old(conn)).contains_key(alias@) ==> table_of(*final(conn)) == table_of(
            *old(conn),
        ),
        r is Err ==> table_of(*final(conn)) == table_of(*old(conn)),
{
    match conn.execute(
        "UPDATE aliases SET command = ?1, description = ?2, date_updated = ?3
             WHERE alias = ?4",
        (command, description, updated, alias),
    ) {
        Ok(_) => Ok(()),
        Err(e) => Err(e),
    }
}

/// Relies on rusqlite's `Connection::execute` running a `DELETE` of one
/// key: the row with that key, if any, leaves the table; a failed
/// statement leaves the table as it was.
#[verifier::external_body]
fn delete_row(conn: &mut rusqlite::Connection, alias: &str) -> (r: Result<
    (),
    rusqlite::Error,
>)
    ensures
        r is Ok ==> table_of(*final(conn)) == table_of(*old(conn)).remove(alias@),
        r is Err ==> table_of(*final(conn)) == table_of(*old(conn)),
{
    match conn.execute("DELETE FROM aliases WHERE alias = ?1", (alias,)) {
        Ok(_) => Ok(()),
        Err(e) => Err(e),
    }
}

/// Every row's key stands in the table with exactly that row's fields,
/// the keys are pairwise distinct, and every key of the table occurs.
/// The order of the rows is left open.
pub open spec fn rows_match_table(rows: Seq<RawRow>, m: Map<Seq<char>, RowV>) -> bool {
    &&& forall|i: int, j: int| 0 <= i < j < rows.len() ==> rows[i].0@ != rows[j].0@
    &&& forall|i: int|
        0 <= i < rows.len() ==> m.contains_key(#[trigger] rows[i].0@) && m[rows[i].0@] == (
            rows[i].1@,
            rows[i].2@,
            rows[i].3@,
            rows[i].4@,
        )
    &&& forall|k: Seq<char>|
        m.contains_key(k) ==> exists|i: int| 0 <= i < rows.len() && #[trigger] rows[i].0@ == k
}

/// Relies on rusqlite's `Connection::prepare`, `Statement::query_map`
/// and collecting the mapped rows: a full `SELECT` hands out every row
/// of the table exactly once, in an order SQLite leaves open.
#[verifier::external_body]
fn select_rows(conn: &rusqlite::Connection) -> (r: Result<Vec<RawRow>, rusqlite::Error>)
    ensures
        r is Ok ==> rows_match_table(r->Ok_0@, table_of(*conn)),
{
    match conn.prepare(
        "SELECT alias, command, description, date_created, date_updated FROM aliases",
    ) {
        Ok(mut stmt) => {
            match stmt.query_map((), |row| {
                Ok((row.get(0)?, row.get(1)?, row.get(2)?, row.get(3)?, row.get(4)?))
            }) {
                Ok(rows) => rows.collect(),
                Err(e) => Err(e),
            }
        },
        Err(e) => Err(e),
    }
}

/// The display entry a raw row stands for, once its update timestamp is
/// read back out of its text.
pub open spec fn display_of_row(t: RawRow) -> AliasDisplay {
    AliasDisplay {
        alias: t.0,
        command: t.1,
        description: t.2,
        date_updated: rfc3339_val(t.4@)->Some_0,
    }
}

/// The display entries of a row sequence, in the rows' order.
pub open spec fn displays_of_rows(rows: Seq<RawRow>) -> Seq<AliasDisplay> {
    rows.map_values(|t: RawRow| display_of_row(t))
}

/// The entry shows this stored row: same name, same command, same
/// description, and the update timestamp the stored text parses to.
pub open spec fn display_matches_row(d: AliasDisplay, key: Seq<char>, row: RowV) -> bool {
    &&& d.alias@ == key
    &&& d.command@ == row.0
    &&& d.description@ == row.1
    &&& rfc3339_val(row.3) == Some(d.date_updated)
}

/// The sequence is the listing of the table: strictly ascending by
/// alias name, every entry showing its stored row, and every stored key
/// shown.
pub open spec fn listing_matches(m: Map<Seq<char>, RowV>, s: Seq<AliasDisplay>) -> bool {
    &&& sorted_lt(s)
    &&& forall|i: int|
        0 <= i < s.len() ==> m.contains_key(#[trigger] s[i].alias@) && display_matches_row(
            s[i],
            s[i].alias@,
            m[s[i].alias@],
        )
    &&& forall|k: Seq<char>|
        m.contains_key(k) ==> exists|i: int| 0 <= i < s.len() && #[trigger] s[i].alias@ == k
}

/// Turns the rows of a full table scan into the sorted listing. Fails
/// only where a stored update timestamp does not parse, which means the
/// backing file was tampered with.
pub fn build_listing(rows: Vec<RawRow>) -> (r: Result<Vec<AliasDisplay>, StoreError>)
    ensures
        (r is Ok) == (forall|i: int|
            0 <= i < rows@.len() ==> rfc3339_val(#[trigger] rows@[i].4@) is Some),
        r is Err ==> r == Err::<Vec<AliasDisplay>, StoreError>(StoreError::StorageUnavailable),
        r is Ok ==> sorted_le(r->Ok_0@) && r->Ok_0@.to_multiset() == displays_of_rows(
            rows@,
        ).to_multiset(),
{
    let mut out: Vec<AliasDisplay> = Vec::new();
    let n = rows.len();
    let mut i: usize = 0;
    while i < n
        invariant
            n == rows@.len(),
            0 <= i <= n,
            out@.len() == i,
            forall|j: int|
                0 <= j < i ==> rfc3339_val(#[trigger] rows@[j].4@) is Some && out@[j]
                    == display_of_row(rows@[j]),
        decreases n - i,
    {
        let t = &rows[i];
        match parse_rfc3339(t.4.as_str()) {
            None => {
                return Err(StoreError::StorageUnavailable);
            },
            Some(ts) => {
                out.push(
                    AliasDisplay {
                        alias: t.0.clone(),
                        command: t.1.clone(),
                        description: t.2.clone(),
                        date_updated: ts,
                    },
                );
            },
        }
        i += 1;
    }
    proof {
        assert(out@ =~= displays_of_rows(rows@));
    }
    Ok(sort_displays(out))
}

/// The single-table record store: every operation reads or rewrites the
/// rows of one SQLite table keyed by the alias name.
pub struct Database {
    conn: rusqlite::Connection,
}

impl Database {
    /// The stored rows, keyed by alias name, with the timestamps in
    /// their stored text form.
    pub closed spec fn rows(&self) -> Map<Seq<char>, RowV> {
        table_of(self.conn)
    }

    /// Opens (creating if absent) the backing file and makes sure the
    /// table exists. The rows are whatever the file already held.
    pub fn new(db_path: String) -> (r: Result<Database, StoreError>)
        ensures
            r is Err ==> r == Err::<Database, StoreError>(StoreError::StorageUnavailable),
    {
        match open_db(db_path.as_str()) {
            Err(_) => Err(StoreError::StorageUnavailable),
            Ok(mut conn) => {
                match init_schema(&mut conn) {
                    Err(_) => Err(StoreError::StorageUnavailable),
                    Ok(()) => Ok(Database { conn }),
                }
            },
        }
    }

    /// Inserts a new record. A key that is already stored is refused
    /// with `DuplicateKey` and the store is left as it was.
    pub fn add_alias(&mut self, alias: &Alias) -> (r: Result<(), StoreError>)
        requires
            alias.wf(),
        ensures
            r is Ok ==> !old(self).rows().contains_key(alias.alias@) && final(self).rows() == old(
                self,
            ).rows().insert(
                alias.alias@,
                (
                    alias.command@,
                    alias.description@,
                    rfc3339_of(alias.date_created),
                    rfc3339_of(alias.date_updated),
                ),
            ),
            r == Err::<(), StoreError>(StoreError::DuplicateKey) ==> old(self).rows().contains_key(
                alias.alias@,
            ) && final(self).rows() == old(self).rows(),
            r == Err::<(), StoreError>(StoreError::StorageUnavailable) ==> final(self).rows() == old(
                self,
            ).rows(),
            r is Err ==> r == Err::<(), StoreError>(StoreError::DuplicateKey) || r == Err::<(), StoreError>(
                StoreError::StorageUnavailable,
            ),
            old(self).rows().contains_key(alias.alias@) ==> r is Err,
    {
        let created = format_rfc3339(alias.date_created);
        let updated = format_rfc3339(alias.date_updated);
        match row_exists(&self.conn, alias.alias.as_str()) {
            Err(_) => Err(StoreError::StorageUnavailable),
            Ok(true) => Err(StoreError::DuplicateKey),
            Ok(false) => {
                match insert_row(
                    &mut self.conn,
                    alias.alias.as_str(),
                    alias.command.as_str(),
                    alias.description.as_str(),
                    created.as_str(),
                    updated.as_str(),
                ) {
                    Err(_) => Err(StoreError::StorageUnavailable),
                    Ok(()) => Ok(()),
                }
            },
        }
    }

    /// Rewrites the command, the description and the update timestamp
    /// of the record with this key. A key that is not stored is not an
    /// error: the store is left as it was, silently. The creation
    /// timestamp is never touched.
    pub fn update_alias(&mut self, alias: &Alias) -> (r: Result<(), StoreError>)
        requires
            alias.wf(),
        ensures
            r is Ok && old(self).rows().contains_key(alias.alias@) ==> final(self).rows() == old(
                self,
            ).rows().insert(
                alias.alias@,
                (
                    alias.command@,
                    alias.description@,
                    old(self).rows()[alias.alias@].2,
                    rfc3339_of(alias.date_updated),
                ),
            ),
            r is Ok && !old(self).rows().contains_key(alias.alias@) ==> final(self).rows() == old(
                self,
            ).rows(),
            r is Err ==> r == Err::<(), StoreError>(StoreError::StorageUnavailable) && final(self).rows()
                == old(self).rows(),
    {
        let updated = format_rfc3339(alias.date_updated);
        match update_row(
            &mut self.conn,
            alias.command.as_str(),
            alias.description.as_str(),
            updated.as_str(),
            alias.alias.as_str(),
        ) {
            Err(_) => Err(StoreError::StorageUnavailable),
            Ok(()) => Ok(()),
        }
    }

    /// Deletes the record with this key. A key that is not stored is
    /// not an error: removal is idempotent.
    pub fn remove_alias(&mut self, alias: &str) -> (r: Result<(), StoreError>)
        ensures
            r is Ok ==> final(self).rows() == old(self).rows().remove(alias@),
            r is Err ==> r == Err::<(), StoreError>(StoreError::StorageUnavailable) && final(self).rows()
                == old(self).rows(),
    {
        match delete_row(&mut self.conn, alias) {
            Err(_) => Err(StoreError::StorageUnavailable),
            Ok(()) => Ok(()),
        }
    }

    /// Returns every stored record as a display entry, sorted strictly
    /// ascending by alias name.
    pub fn list_aliases(&self) -> (r: Result<Vec<AliasDisplay>, StoreError>)
        ensures
            r is Ok ==> listing_matches(self.rows(), r->Ok_0@),
            r is Err ==> r == Err::<Vec<AliasDisplay>, StoreError>(StoreError::StorageUnavailable),
    {
        match select_rows(&self.conn) {
            Err(_) => Err(StoreError::StorageUnavailable),
            Ok(rows) => {
                let ghost m = self.rows();
                let ghost rows_g = rows@;
                let r = build_listing(rows);
                match r {
                    Err(e) => Err(e),
                    Ok(out) => {
                        proof {
                            lemma_listing_from_rows(m, rows_g, out@);
                        }
                        Ok(out)
                    },
                }
            },
        }
    }
}

/// A sorted permutation of the display entries of a full table scan is
/// the table's listing.
proof fn lemma_listing_from_rows(m: Map<Seq<char>, RowV>, rows: Seq<RawRow>, s: Seq<AliasDisplay>)
    requires
        rows_match_table(rows, m),
        forall|i: int| 0 <= i < rows.len() ==> rfc3339_val(#[trigger] rows[i].4@) is Some,
        sorted_le(s),
        s.to_multiset() == displays_of_rows(rows).to_multiset(),
    ensures
        listing_matches(m, s),
{
    broadcast use vstd::seq_lib::group_to_multiset_ensures;

    let ds = displays_of_rows(rows);
    assert(ds.len() == rows.len());
    // every display entry of the scan comes from exactly one row
    assert forall|i: int, j: int| 0 <= i < j < ds.len() implies ds[i] != ds[j] by {
        assert(ds[i].alias@ == rows[i].0@ && ds[j].alias@ == rows[j].0@);
    }
    ds.lemma_multiset_has_no_duplicates();
    s.lemma_multiset_has_no_duplicates_conv();
    // each listing entry is a scan entry and so shows a stored row
    assert forall|i: int| 0 <= i < s.len() implies m.contains_key(#[trigger] s[i].alias@)
        && display_matches_row(s[i], s[i].alias@, m[s[i].alias@]) by {
        assert(s.to_multiset().contains(s[i]));
        assert(ds.contains(s[i]));
        let j = choose|j: int| 0 <= j < ds.len() && ds[j] == s[i];
        assert(m.contains_key(rows[j].0@));
    }
    // each stored key is listed
    assert forall|k: Seq<char>| m.contains_key(k) implies exists|i: int|
        0 <= i < s.len() && #[trigger] s[i].alias@ == k by {
        let j = choose|j: int| 0 <= j < rows.len() && #[trigger] rows[j].0@ == k;
        assert(ds[j] == display_of_row(rows[j]));
        assert(ds.contains(ds[j]));
        assert(s.to_multiset().contains(ds[j]));
        assert(s.contains(ds[j]));
        let i = choose|i: int| 0 <= i < s.len() && s[i] == ds[j];
        assert(s[i].alias@ == k);
    }
    // distinct names make the sorted listing strictly ascending
    assert forall|i: int, j: int| 0 <= i < j < s.len() implies s[i].alias@ != s[j].alias@ by {
        assert(s[i] != s[j]);
        assert(s.to_multiset().contains(s[i]));
        assert(ds.contains(s[i]));
        assert(s.to_multiset().contains(s[j]));
        assert(ds.contains(s[j]));
        let j1 = choose|t: int| 0 <= t < ds.len() && ds[t] == s[i];
        let j2 = choose|t: int| 0 <= t < ds.len() && ds[t] == s[j];
        if s[i].alias@ == s[j].alias@ {
            assert(rows[j1].0@ == s[i].alias@);
            assert(rows[j2].0@ == s[j].alias@);
            assert(j1 == j2);
            assert(s[i] == s[j]);
        }
    }
    lemma_sorted_le_distinct_lt(s);
}


/// The column names of one exported record, in export order.
pub open spec fn display_fields(d: AliasDisplay) -> Seq<Seq<char>> {
    seq![d.alias@, d.command@, d.description@, rfc3339_of(d.date_updated)]
}

/// The header record of an export.
pub open spec fn header_fields() -> Seq<Seq<char>> {
    seq!["alias"@, "command"@, "description"@, "date_updated"@]
}

/// The data records of an export, in listing order.
pub open spec fn display_records(s: Seq<AliasDisplay>) -> Seq<Seq<Seq<char>>> {
    s.map_values(|d: AliasDisplay| display_fields(d))
}

/// The full export text of a listing: the header record, then one
/// record per entry, in listing order.
pub open spec fn export_text(s: Seq<AliasDisplay>) -> Seq<char> {
    enc_records(seq![header_fields()] + display_records(s))
}

/// Where each record field of an imported table stands, as its header
/// row lays the columns out.
pub struct Header {
    pub alias_i: usize,
    pub command_i: usize,
    pub description_i: usize,
    pub created_i: Option<usize>,
    pub updated_i: usize,
    pub width: usize,
}

/// A column name the import understands.
pub open spec fn known_col(s: Seq<char>) -> bool {
    s == "alias"@ || s == "command"@ || s == "description"@ || s == "date_created"@ || s
        == "date_updated"@
}

/// The header row lays the columns out as `h` records: every column
/// name is known, each of the four required names stands at its one
/// recorded place, and the creation column is recorded exactly where
/// the file has one.
pub open spec fn header_ok(rec: Seq<Seq<char>>, h: Header) -> bool {
    &&& h.width == rec.len()
    &&& forall|i: int| 0 <= i < rec.len() ==> known_col(#[trigger] rec[i])
    &&& h.alias_i < rec.len() && rec[h.alias_i as int] == "alias"@
    &&& forall|i: int| 0 <= i < rec.len() && #[trigger] rec[i] == "alias"@ ==> i == h.alias_i
    &&& h.command_i < rec.len() && rec[h.command_i as int] == "command"@
    &&& forall|i: int| 0 <= i < rec.len() && #[trigger] rec[i] == "command"@ ==> i == h.command_i
    &&& h.description_i < rec.len() && rec[h.description_i as int] == "description"@
    &&& forall|i: int|
        0 <= i < rec.len() && #[trigger] rec[i] == "description"@ ==> i == h.description_i
    &&& h.updated_i < rec.len() && rec[h.updated_i as int] == "date_updated"@
    &&& forall|i: int|
        0 <= i < rec.len() && #[trigger] rec[i] == "date_updated"@ ==> i == h.updated_i
    &&& (match h.created_i {
        Some(ci) => ci < rec.len() && rec[ci as int] == "date_created"@ && (forall|i: int|
            0 <= i < rec.len() && #[trigger] rec[i] == "date_created"@ ==> i == ci),
        None => forall|i: int| 0 <= i < rec.len() ==> #[trigger] rec[i] != "date_created"@,
    })
}

/// What one imported data record stores, or `None` where the record
/// does not fit the header, a timestamp does not read as a valid
/// second, or the record says it was updated before it was created. A
/// file without a creation column restores the creation time as the
/// update time.
pub open spec fn record_entry(h: Header, rec: Seq<Seq<char>>) -> Option<(Seq<char>, RowV)> {
    if rec.len() != h.width {
        None
    } else {
        let tu_o = rfc3339_val(rec[h.updated_i as int]);
        let tc_o = match h.created_i {
            Some(ci) => rfc3339_val(rec[ci as int]),
            None => tu_o,
        };
        match (tc_o, tu_o) {
            (Some(tc), Some(tu)) => if ts_valid(tc) && ts_valid(tu) && tc <= tu {
                Some(
                    (
                        rec[h.alias_i as int],
                        (
                            rec[h.command_i as int],
                            rec[h.description_i as int],
                            rfc3339_of(tc),
                            rfc3339_of(tu),
                        ),
                    ),
                )
            } else {
                None
            },
            _ => None,
        }
    }
}

/// What importing the data records one after the other does to the
/// store: each record is inserted in turn, and the first record that
/// does not read back, or whose key is already present, stops the
/// import with the records before it kept.
pub open spec fn import_fold(m: Map<Seq<char>, RowV>, h: Header, recs: Seq<Seq<Seq<char>>>) -> (
    Map<Seq<char>, RowV>,
    Result<(), StoreError>,
)
    decreases recs.len(),
{
    if recs.len() == 0 {
        (m, Ok(()))
    } else {
        match record_entry(h, recs[0]) {
            None => (m, Err(StoreError::MalformedInput)),
            Some(e) => if m.contains_key(e.0) {
                (m, Err(StoreError::DuplicateKey))
            } else {
                import_fold(m.insert(e.0, e.1), h, recs.drop_first())
            },
        }
    }
}

/// The import's outcome agrees with `import_fold` wherever the backing
/// store itself did not fail.
pub open spec fn import_matches(
    m0: Map<Seq<char>, RowV>,
    h: Header,
    dat: Seq<Seq<Seq<char>>>,
    m1: Map<Seq<char>, RowV>,
    r: Result<(), StoreError>,
) -> bool {
    &&& (r is Ok ==> import_fold(m0, h, dat) == (m1, Ok::<(), StoreError>(())))
    &&& (r == Err::<(), StoreError>(StoreError::MalformedInput) ==> import_fold(m0, h, dat) == (
        m1,
        Err::<(), StoreError>(StoreError::MalformedInput),
    ))
    &&& (r == Err::<(), StoreError>(StoreError::DuplicateKey) ==> import_fold(m0, h, dat) == (
        m1,
        Err::<(), StoreError>(StoreError::DuplicateKey),
    ))
}

/// Everything the import promises: text that is no table, or a table
/// without a usable header row, is refused whole; with a usable header
/// the outcome is the fold of the data records over the store.
pub open spec fn import_post(
    m0: Map<Seq<char>, RowV>,
    text: Seq<char>,
    m1: Map<Seq<char>, RowV>,
    r: Result<(), StoreError>,
) -> bool {
    match parse_records(text, 0) {
        None => r == Err::<(), StoreError>(StoreError::MalformedInput) && m1 == m0,
        Some(recs) => if recs.len() == 0 {
            r == Err::<(), StoreError>(StoreError::MalformedInput) && m1 == m0
        } else {
            &&& ((forall|h: Header| !header_ok(recs[0], h)) ==> r == Err::<(), StoreError>(
                StoreError::MalformedInput,
            ) && m1 == m0)
            &&& (forall|h: Header|
                header_ok(recs[0], h) ==> import_matches(m0, h, recs.drop_first(), m1, r))
        },
    }
}

/// Reads the header row. `None` is a header no column layout fits.
fn parse_header(rec: &Vec<String>) -> (r: Option<Header>)
    ensures
        (match r {
            Some(h) => header_ok(rec.deep_view(), h),
            None => forall|h: Header| !header_ok(rec.deep_view(), h),
        }),
{
    let name_alias = String::from_str("alias");
    let name_command = String::from_str("command");
    let name_description = String::from_str("description");
    let name_created = String::from_str("date_created");
    let name_updated = String::from_str("date_updated");
    let mut alias_i: Option<usize> = None;
    let mut command_i: Option<usize> = None;
    let mut description_i: Option<usize> = None;
    let mut created_i: Option<usize> = None;
    let mut updated_i: Option<usize> = None;
    let n = rec.len();
    let ghost dv = rec.deep_view();
    let mut i: usize = 0;
    while i < n
        invariant
            n == rec@.len(),
            dv == rec.deep_view(),
            dv.len() == rec@.len(),
            forall|j: int| 0 <= j < rec@.len() ==> dv[j] == #[trigger] rec@[j]@,
            name_alias@ == "alias"@,
            name_command@ == "command"@,
            name_description@ == "description"@,
            name_created@ == "date_created"@,
            name_updated@ == "date_updated"@,
            0 <= i <= n,
            forall|j: int| 0 <= j < i ==> known_col(#[trigger] dv[j]),
            (match alias_i {
                Some(x) => x < i && dv[x as int] == "alias"@ && (forall|j: int|
                    0 <= j < i && #[trigger] dv[j] == "alias"@ ==> j == x),
                None => forall|j: int| 0 <= j < i ==> #[trigger] dv[j] != "alias"@,
            }),
            (match command_i {
                Some(x) => x < i && dv[x as int] == "command"@ && (forall|j: int|
                    0 <= j < i && #[trigger] dv[j] == "command"@ ==> j == x),
                None => forall|j: int| 0 <= j < i ==> #[trigger] dv[j] != "command"@,
            }),
            (match description_i {
                Some(x) => x < i && dv[x as int] == "description"@ && (forall|j: int|
                    0 <= j < i && #[trigger] dv[j] == "description"@ ==> j == x),
                None => forall|j: int| 0 <= j < i ==> #[trigger] dv[j] != "description"@,
            }),
            (match created_i {
                Some(x) => x < i && dv[x as int] == "date_created"@ && (forall|j: int|
                    0 <= j < i && #[trigger] dv[j] == "date_created"@ ==> j == x),
                None => forall|j: int| 0 <= j < i ==> #[trigger] dv[j] != "date_created"@,
            }),
            (match updated_i {
                Some(x) => x < i && dv[x as int] == "date_updated"@ && (forall|j: int|
                    0 <= j < i && #[trigger] dv[j] == "date_updated"@ ==> j == x),
                None => forall|j: int| 0 <= j < i ==> #[trigger] dv[j] != "date_updated"@,
            }),
        decreases n - i,
    {
        proof {
            reveal_strlit("alias");
            reveal_strlit("command");
            reveal_strlit("description");
            reveal_strlit("date_created");
            reveal_strlit("date_updated");
            assert("date_created"@[5] != "date_updated"@[5]);
            assert("date_created"@ != "date_updated"@);
        }
        let f = &rec[i];
        if *f == name_alias {
            if alias_i.is_some() {
                return None;
            }
            alias_i = Some(i);
        } else if *f == name_command {
            if command_i.is_some() {
                return None;
            }
            command_i = Some(i);
        } else if *f == name_description {
            if description_i.is_some() {
                return None;
            }
            description_i = Some(i);
        } else if *f == name_created {
            if created_i.is_some() {
                return None;
            }
            created_i = Some(i);
        } else if *f == name_updated {
            if updated_i.is_some() {
                return None;
            }
            updated_i = Some(i);
        } else {
            return None;
        }
        i += 1;
    }
    match (alias_i, command_i, description_i, updated_i) {
        (Some(ai), Some(ci), Some(di), Some(ui)) => Some(
            Header {
                alias_i: ai,
                command_i: ci,
                description_i: di,
                created_i,
                updated_i: ui,
                width: n,
            },
        ),
        _ => None,
    }
}

/// Only one column layout fits a given header row.
pub proof fn lemma_header_unique(rec: Seq<Seq<char>>, h1: Header, h2: Header)
    requires
        header_ok(rec, h1),
        header_ok(rec, h2),
    ensures
        h1 == h2,
{
    assert(h1.alias_i == h2.alias_i);
    assert(h1.command_i == h2.command_i);
    assert(h1.description_i == h2.description_i);
    assert(h1.updated_i == h2.updated_i);
    match (h1.created_i, h2.created_i) {
        (Some(c1), Some(c2)) => {
            assert(c1 == c2);
        },
        (Some(c1), None) => {
            assert(rec[c1 as int] == "date_created"@);
            assert(false);
        },
        (None, Some(c2)) => {
            assert(rec[c2 as int] == "date_created"@);
            assert(false);
        },
        (None, None) => {},
    }
}

impl Database {
    /// The CSV text of the listing: one header record, then one record
    /// per alias in listing order. This is exactly what an export file
    /// holds.
    pub fn export_aliases_to_csv_buffer(&self) -> (r: Result<String, StoreError>)
        ensures
            r is Ok ==> (exists|s: Seq<AliasDisplay>|
                listing_matches(self.rows(), s) && (forall|i: int|
                    0 <= i < s.len() ==> ts_valid(#[trigger] s[i].date_updated)) && r->Ok_0@
                    == export_text(s)),
            r is Err ==> r == Err::<String, StoreError>(StoreError::StorageUnavailable),
    {
        let list = match self.list_aliases() {
            Err(e) => {
                return Err(e);
            },
            Ok(l) => l,
        };
        let mut recs: Vec<Vec<Vec<char>>> = Vec::new();
        let mut hdr: Vec<Vec<char>> = Vec::new();
        hdr.push(chars_of("alias"));
        hdr.push(chars_of("command"));
        hdr.push(chars_of("description"));
        hdr.push(chars_of("date_updated"));
        proof {
            assert(hdr.deep_view() =~~= header_fields());
        }
        recs.push(hdr);
        let n = list.len();
        let mut i: usize = 0;
        proof {
            assert(list@.take(0).map_values(|d: AliasDisplay| display_fields(d)) =~= Seq::<
                Seq<Seq<char>>,
            >::empty());
            assert(recs.deep_view() =~= seq![header_fields()] + list@.take(0).map_values(
                |d: AliasDisplay| display_fields(d),
            ));
        }
        while i < n
            invariant
                n == list@.len(),
                0 <= i <= n,
                listing_matches(self.rows(), list@),
                forall|j: int| 0 <= j < i ==> ts_valid(#[trigger] list@[j].date_updated),
                recs.deep_view() == seq![header_fields()] + list@.take(i as int).map_values(
                    |d: AliasDisplay| display_fields(d),
                ),
            decreases n - i,
        {
            let d = &list[i];
            if !(d.date_updated >= TS_MIN && d.date_updated <= TS_MAX) {
                return Err(StoreError::StorageUnavailable);
            }
            let upd = format_rfc3339(d.date_updated);
            let mut rec: Vec<Vec<char>> = Vec::new();
            rec.push(chars_of(d.alias.as_str()));
            rec.push(chars_of(d.command.as_str()));
            rec.push(chars_of(d.description.as_str()));
            rec.push(chars_of(upd.as_str()));
            let ghost recs0 = recs.deep_view();
            proof {
                assert(rec.deep_view() =~~= display_fields(list@[i as int]));
            }
            recs.push(rec);
            proof {
                let dmap = |d: AliasDisplay| display_fields(d);
                assert(list@.take(i + 1) =~= list@.take(i as int).push(list@[i as int]));
                assert(list@.take(i + 1).map_values(dmap) =~= list@.take(i as int).map_values(
                    dmap,
                ).push(display_fields(list@[i as int])));
                assert(recs.deep_view() =~= recs0.push(rec.deep_view()));
                assert(recs.deep_view() =~= seq![header_fields()] + list@.take(i + 1).map_values(
                    dmap,
                ));
            }
            i += 1;
        }
        proof {
            assert(list@.take(n as int) =~= list@);
        }
        let text = encode_table(&recs);
        proof {
            let w = list@;
            assert(recs.deep_view() =~~= seq![header_fields()] + w.map_values(
                |d: AliasDisplay| display_fields(d),
            ));
            assert(text@ == export_text(w));
            assert(listing_matches(self.rows(), w));
            assert(forall|i: int| 0 <= i < w.len() ==> ts_valid(#[trigger] w[i].date_updated));
        }
        Ok(text)
    }

    /// Reads records out of CSV text and adds each in turn, stopping at
    /// the first record that is refused; records added before the stop
    /// are kept. Import is not transactional.
    pub fn import_aliases_from_csv_text(&mut self, data: &str) -> (r: Result<(), StoreError>)
        ensures
            import_post(old(self).rows(), data@, final(self).rows(), r),
    {
        let ghost m0 = self.rows();
        let recs = match parse_table(data) {
            None => {
                return Err(StoreError::MalformedInput);
            },
            Some(v) => v,
        };
        let ghost recs_v = recs.deep_view();
        if recs.len() == 0 {
            return Err(StoreError::MalformedInput);
        }
        let h = match parse_header(&recs[0]) {
            None => {
                proof {
                    assert(recs_v[0] == recs@[0].deep_view());
                }
                return Err(StoreError::MalformedInput);
            },
            Some(h) => h,
        };
        let ghost dat = recs_v.drop_first();
        let n = recs.len();
        let mut k: usize = 1;
        proof {
            assert(recs_v[0] == recs@[0].deep_view());
            assert(dat.skip(0) =~= dat);
        }
        while k < n
            invariant
                n == recs@.len(),
                recs_v == recs.deep_view(),
                recs_v.len() == recs@.len(),
                forall|j: int|
                    0 <= j < recs@.len() ==> recs_v[j] == #[trigger] recs@[j].deep_view(),
                1 <= k <= n,
                dat == recs_v.drop_first(),
                m0 == old(self).rows(),
                parse_records(data@, 0) == Some(recs_v),
                header_ok(recs_v[0], h),
                import_fold(m0, h, dat) == import_fold(self.rows(), h, dat.skip(k - 1)),
            decreases n - k,
        {
            let ghost cur = self.rows();
            let ghost rv = recs_v[k as int];
            proof {
                assert(dat.skip(k - 1).len() == dat.len() - (k - 1));
                assert(dat.skip(k - 1)[0] == dat[k - 1]);
                assert(dat[k - 1] == recs_v[k as int]);
                assert(dat.skip(k - 1).drop_first() =~= dat.skip(k as int));
            }
            let rec = &recs[k];
            proof {
                assert(rv.len() == rec@.len());
                assert(forall|x: int| 0 <= x < rec@.len() ==> rv[x] == #[trigger] rec@[x]@);
            }
            if rec.len() != h.width {
                proof {
                    assert(record_entry(h, rv) is None);
                    lemma_import_fails_here(m0, cur, h, dat, k as int, StoreError::MalformedInput);
                    assert(import_matches(m0, h, dat, self.rows(), Err::<(), StoreError>(
                    StoreError::MalformedInput)));
                    lemma_import_matches_all(recs_v[0], h, m0, dat, self.rows(), Err::<(), StoreError>(
                    StoreError::MalformedInput));
                }
                return Err(StoreError::MalformedInput);
            }
            let tu = match parse_rfc3339(rec[h.updated_i].as_str()) {
                None => {
                    proof {
                        assert(record_entry(h, rv) is None);
                        lemma_import_fails_here(m0, cur, h, dat, k as int, StoreError::MalformedInput);
                        assert(import_matches(m0, h, dat, self.rows(), Err::<(), StoreError>(
                        StoreError::MalformedInput)));
                        lemma_import_matches_all(recs_v[0], h, m0, dat, self.rows(), Err::<(), StoreError>(
                        StoreError::MalformedInput));
                    }
                    return Err(StoreError::MalformedInput);
                },
                Some(t) => t,
            };
            let tc = match h.created_i {
                Some(ci) => {
                    match parse_rfc3339(rec[ci].as_str()) {
                        None => {
                            proof {
                                assert(record_entry(h, rv) is None);
                                lemma_import_fails_here(m0, cur, h, dat, k as int, StoreError::MalformedInput);
                            }
                            return Err(StoreError::MalformedInput);
                        },
                        Some(t) => t,
                    }
                },
                None => tu,
            };
            if !(tc >= TS_MIN && tc <= TS_MAX && tu >= TS_MIN && tu <= TS_MAX && tc <= tu) {
                proof {
                    assert(record_entry(h, rv) is None);
                    lemma_import_fails_here(m0, cur, h, dat, k as int, StoreError::MalformedInput);
                    assert(import_matches(m0, h, dat, self.rows(), Err::<(), StoreError>(
                    StoreError::MalformedInput)));
                    lemma_import_matches_all(recs_v[0], h, m0, dat, self.rows(), Err::<(), StoreError>(
                    StoreError::MalformedInput));
                }
                return Err(StoreError::MalformedInput);
            }
            let a = Alias {
                alias: rec[h.alias_i].clone(),
                command: rec[h.command_i].clone(),
                description: rec[h.description_i].clone(),
                date_created: tc,
                date_updated: tu,
            };
            proof {
                assert(record_entry(h, rv) == Some(
                    (a.alias@, (a.command@, a.description@, rfc3339_of(tc), rfc3339_of(tu))),
                ));
            }
            let res = self.add_alias(&a);
            match res {
                Ok(()) => {
                    proof {
                        assert(import_fold(cur, h, dat.skip(k - 1)) == import_fold(
                            self.rows(),
                            h,
                            dat.skip(k as int),
                        ));
                    }
                },
                Err(StoreError::DuplicateKey) => {
                    proof {
                        assert(cur.contains_key(a.alias@));
                        assert(import_fold(cur, h, dat.skip(k - 1)) == (
                            cur,
                            Err::<(), StoreError>(StoreError::DuplicateKey),
                        ));
                        assert(import_matches(m0, h, dat, self.rows(), Err::<(), StoreError>(
                        StoreError::DuplicateKey)));
                        lemma_import_matches_all(
                            recs_v[0],
                            h,
                            m0,
                            dat,
                            self.rows(),
                            Err::<(), StoreError>(StoreError::DuplicateKey),
                        );
                        assert(self.rows() == cur);
                        assert(parse_records(data@, 0)->Some_0 == recs_v);
                        assert(header_ok(recs_v[0], h));
                        assert(forall|h2: Header|
                            header_ok(recs_v[0], h2) ==> import_matches(
                                m0,
                                h2,
                                recs_v.drop_first(),
                                self.rows(),
                                Err::<(), StoreError>(StoreError::DuplicateKey),
                            ));
                        assert(import_post(m0, data@, self.rows(), Err::<(), StoreError>(
                        StoreError::DuplicateKey)));
                    }
                    return Err(StoreError::DuplicateKey);
                },
                Err(_) => {
                    proof {
                        assert(import_matches(m0, h, dat, self.rows(), Err::<(), StoreError>(
                        StoreError::StorageUnavailable)));
                        lemma_import_matches_all(
                            recs_v[0],
                            h,
                            m0,
                            dat,
                            self.rows(),
                            Err::<(), StoreError>(StoreError::StorageUnavailable),
                        );
                    }
                    return Err(StoreError::StorageUnavailable);
                },
            }
            k += 1;
        }
        proof {
            assert(dat.skip(n - 1) =~= Seq::<Seq<Seq<char>>>::empty());
            assert(import_fold(self.rows(), h, dat.skip(n - 1)) == (
                self.rows(),
                Ok::<(), StoreError>(()),
            ));
            assert(import_matches(m0, h, dat, self.rows(), Ok::<(), StoreError>(())));
            lemma_import_matches_all(recs_v[0], h, m0, dat, self.rows(), Ok::<(), StoreError>(()));
        }
        Ok(())
    }
}

/// Where the record at hand does not read back, the import stops here
/// with the store as it is.
proof fn lemma_import_fails_here(
    m0: Map<Seq<char>, RowV>,
    cur: Map<Seq<char>, RowV>,
    h: Header,
    dat: Seq<Seq<Seq<char>>>,
    k: int,
    e: StoreError,
)
    requires
        1 <= k < dat.len() + 1,
        import_fold(m0, h, dat) == import_fold(cur, h, dat.skip(k - 1)),
        record_entry(h, dat[k - 1]) is None,
        e == StoreError::MalformedInput,
    ensures
        import_fold(m0, h, dat) == (cur, Err::<(), StoreError>(e)),
{
    assert(dat.skip(k - 1).len() > 0);
    assert(dat.skip(k - 1)[0] == dat[k - 1]);
}

/// The import outcome holds for every layout that fits the header,
/// because only one does.
proof fn lemma_import_matches_all(
    rec0: Seq<Seq<char>>,
    h: Header,
    m0: Map<Seq<char>, RowV>,
    dat: Seq<Seq<Seq<char>>>,
    m1: Map<Seq<char>, RowV>,
    r: Result<(), StoreError>,
)
    requires
        header_ok(rec0, h),
        import_matches(m0, h, dat, m1, r),
    ensures
        forall|h2: Header| header_ok(rec0, h2) ==> import_matches(m0, h2, dat, m1, r),
{
    assert forall|h2: Header| header_ok(rec0, h2) implies import_matches(m0, h2, dat, m1, r) by {
        lemma_header_unique(rec0, h, h2);
    }
}
} // verus!
