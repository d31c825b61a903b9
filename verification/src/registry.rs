//! The registry of member addresses: one SQLite table owned by the master.
//! The table is reached only through the trusted wrappers below; everything
//! above them is verified against the multiset of addresses the table
//! holds, one occurrence per row.

use vstd::prelude::*;
use vstd::multiset::Multiset;

verus! {

#[verifier::external_type_specification]
#[verifier::external_body]
pub struct ExConnection(rusqlite::Connection);

#[verifier::external_type_specification]
#[verifier::external_body]
pub struct ExSqlError(rusqlite::Error);

/// The durable table of member addresses, viewed as the multiset of
/// addresses of its rows.
pub struct Registry {
    conn: rusqlite::Connection,
}

/// The addresses in the `servers` table of the database behind `r`, one
/// occurrence per row; a database without that table holds none.
pub uninterp spec fn stored_addrs(r: Registry) -> Multiset<Seq<char>>;

impl View for Registry {
    type V = Multiset<Seq<char>>;

    open spec fn view(&self) -> Multiset<Seq<char>> {
        stored_addrs(*self)
    }
}

/// The registry was unavailable or refused a statement; the spec treats
/// this as a per-connection failure, never as a protocol answer.
#[derive(Clone, Copy, PartialEq, Eq, Debug, Structural)]
pub struct StoreError;

impl Registry {
    /// Relies on rusqlite::Connection::open_in_memory: a fresh in-memory
    /// database holds no tables, hence no member rows.
    #[verifier::external_body]
    fn raw_open_in_memory() -> (r: Result<Registry, rusqlite::Error>)
        ensures
            r matches Ok(reg) ==> stored_addrs(reg) == Multiset::<Seq<char>>::empty(),
    {
        Ok(Registry { conn: rusqlite::Connection::open_in_memory()? })
    }

    /// Relies on rusqlite::Connection::open: it opens or creates the
    /// database file at the path. What rows the file already holds depends
    /// on the disk, so nothing is assumed of the contents.
    #[verifier::external_body]
    fn raw_open(path: &str) -> (r: Result<Registry, rusqlite::Error>) {
        Ok(Registry { conn: rusqlite::Connection::open(path)? })
    }

    /// Relies on rusqlite::Connection::execute running `CREATE TABLE IF
    /// NOT EXISTS`: it never drops a row, and a table it creates starts
    /// empty.
    #[verifier::external_body]
    fn raw_create_table(&mut self) -> (r: Result<(), rusqlite::Error>)
        ensures
            stored_addrs(*final(self)) == stored_addrs(*old(self)),
    {
        self.conn.execute(
            "CREATE TABLE IF NOT EXISTS servers (
                id INTEGER PRIMARY KEY,
                ip_address VARCHAR NOT NULL,
                is_active BOOLEAN DEFAULT 1,
                has_left BOOLEAN DEFAULT 0
            )",
            [],
        ).map(|_| ())
    }

    /// Relies on rusqlite::Connection::query_row and Row::get: `SELECT
    /// COUNT(*)` returns exactly one row holding the number of rows whose
    /// `ip_address` equals the argument.
    #[verifier::external_body]
    fn raw_count_address(&self, addr: &str) -> (r: Result<i64, rusqlite::Error>)
        ensures
            r matches Ok(n) ==> n >= 0 && n as nat == stored_addrs(*self).count(addr@),
    {
        self.conn.query_row(
            "SELECT COUNT(*) FROM servers WHERE ip_address = ?1",
            [addr],
            |row| row.get(0),
        )
    }

    /// Relies on rusqlite::Connection::execute running `INSERT`: on
    /// success exactly one new row with the given address exists; a failed
    /// statement changes nothing.
    #[verifier::external_body]
    fn raw_insert_address(&mut self, addr: &str) -> (r: Result<(), rusqlite::Error>)
        ensures
            r is Ok ==> stored_addrs(*final(self)) == stored_addrs(*old(self)).insert(addr@),
            r is Err ==> stored_addrs(*final(self)) == stored_addrs(*old(self)),
    {
        self.conn.execute("INSERT INTO servers (ip_address) VALUES (?1)", [addr]).map(|_| ())
    }

    /// A registry in memory, for one process's own use: starts empty.
    pub fn open_in_memory() -> (r: Result<Registry, StoreError>)
        ensures
            r matches Ok(reg) ==> reg@ == Multiset::<Seq<char>>::empty(),
    {
        match Self::raw_open_in_memory() {
            Ok(mut reg) => match reg.raw_create_table() {
                Ok(()) => Ok(reg),
                Err(_) => Err(StoreError),
            },
            Err(_) => Err(StoreError),
        }
    }

    /// The registry in the database file at `path`, created if absent and
    /// reused otherwise; existing rows are kept, so nothing is known of
    /// the contents.
    pub fn open(path: &str) -> (r: Result<Registry, StoreError>) {
        match Self::raw_open(path) {
            Ok(mut reg) => match reg.raw_create_table() {
                Ok(()) => Ok(reg),
                Err(_) => Err(StoreError),
            },
            Err(_) => Err(StoreError),
        }
    }

    /// Whether some row holds `addr`.
    pub fn contains(&self, addr: &str) -> (r: Result<bool, StoreError>)
        ensures
            r matches Ok(b) ==> b == self@.contains(addr@),
    {
        match self.raw_count_address(addr) {
            Ok(n) => Ok(n > 0),
            Err(_) => Err(StoreError),
        }
    }

    /// Adds one row holding `addr`; on failure the table is unchanged.
    pub fn insert(&mut self, addr: &str) -> (r: Result<(), StoreError>)
        ensures
            r is Ok ==> final(self)@ == old(self)@.insert(addr@),
            r is Err ==> final(self)@ == old(self)@,
    {
        match self.raw_insert_address(addr) {
            Ok(()) => Ok(()),
            Err(_) => Err(StoreError),
        }
    }
}

} // verus!
