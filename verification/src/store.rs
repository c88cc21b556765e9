//! Trusted boundary to the persistent store. The backing store is SQLite,
//! reached through rusqlite; the core issues exactly one SQL statement per
//! wrapper below. What a statement did to the data on disk is outside the
//! reach of verification, so the wrappers promise nothing about it: the
//! services' own contracts say what happens to the cache for every outcome
//! a wrapper can report.

use vstd::prelude::*;

verus! {

/// The backing store's connection handle, opaque to verification.
#[verifier::external_type_specification]
#[verifier::external_body]
pub struct ExConnection(rusqlite::Connection);

/// A failure reported by the backing store, carried as its message.
#[derive(Debug, Clone)]
pub struct StoreError {
    pub message: String,
}

/// One persisted trigger row, in the table's column order
/// `(id, type, expression, comment, active, headers)`.
#[derive(Debug, Clone)]
pub struct TriggerRow {
    pub id: u32,
    pub msg_type: String,
    pub expression: String,
    pub description: String,
    pub is_active: bool,
    pub headers: String,
}

/// One persisted template row, in the table's column order
/// `(id, template, comment, type)`.
#[derive(Debug, Clone)]
pub struct TemplateRow {
    pub id: u32,
    pub template_text: String,
    pub name: String,
    pub template_type: String,
}

/// Relies on rusqlite's `Connection::execute`: runs the insert statement
/// for one trigger; the store assigns the row id.
#[verifier::external_body]
pub(crate) fn exec_insert_trigger(
    conn: &rusqlite::Connection,
    msg_type: &str,
    expression: &str,
    headers: &str,
    description: &str,
    is_active: bool,
) -> (r: Result<(), StoreError>) {
    match conn.execute(
        "INSERT INTO Triggers (type, expression, headers, comment, active) VALUES (?1,?2,?3,?4,?5)",
        (msg_type, expression, headers, description, is_active),
    ) {
        Ok(_) => Ok(()),
        Err(e) => Err(StoreError { message: e.to_string() }),
    }
}

/// Relies on rusqlite's `Connection::execute`: runs the delete statement
/// for one trigger id. Deleting an absent id affects zero rows and is
/// reported as success by the store.
#[verifier::external_body]
pub(crate) fn exec_remove_trigger(conn: &rusqlite::Connection, id: u32) -> (r: Result<
    usize,
    StoreError,
>) {
    match conn.execute("DELETE FROM Triggers WHERE id=?1", (id,)) {
        Ok(n) => Ok(n),
        Err(e) => Err(StoreError { message: e.to_string() }),
    }
}

/// Relies on rusqlite's `Connection::execute`: runs the update statement
/// for one trigger id.
#[verifier::external_body]
pub(crate) fn exec_update_trigger(
    conn: &rusqlite::Connection,
    msg_type: &str,
    expression: &str,
    headers: &str,
    description: &str,
    is_active: bool,
    id: u32,
) -> (r: Result<usize, StoreError>) {
    match conn.execute(
        "UPDATE Triggers SET type=?1, expression=?2, headers=?3, comment=?4, active=?5 WHERE id=?6",
        (msg_type, expression, headers, description, is_active, id),
    ) {
        Ok(n) => Ok(n),
        Err(e) => Err(StoreError { message: e.to_string() }),
    }
}

/// Relies on rusqlite's `Connection::prepare` and `Statement::query_map`:
/// reads every persisted trigger row, each in the column order
/// `(id, type, expression, comment, active, headers)`.
#[verifier::external_body]
pub(crate) fn query_trigger_rows(conn: &rusqlite::Connection) -> (r: Result<
    Vec<TriggerRow>,
    StoreError,
>) {
    let run = || -> rusqlite::Result<Vec<TriggerRow>> {
        let mut stmt =
            conn.prepare("SELECT id, type, expression, comment, active, headers FROM Triggers")?;
        let rows = stmt.query_map([], |row| {
            Ok(TriggerRow {
                id: row.get(0)?, msg_type: row.get(1)?, expression: row.get(2)?,
                description: row.get(3)?, is_active: row.get(4)?, headers: row.get(5)?,
            })
        })?;
        rows.collect()
    };
    run().map_err(|e| StoreError { message: e.to_string() })
}

/// Relies on rusqlite's `Connection::last_insert_rowid`: the row id of the
/// most recent successful insert on this connection, truncated to the
/// 32-bit id space the tables use.
#[verifier::external_body]
pub(crate) fn last_insert_id(conn: &rusqlite::Connection) -> (r: u32) {
    conn.last_insert_rowid() as u32
}

/// Relies on rusqlite's `Connection::execute`: runs the insert statement
/// for one template; the store assigns the row id.
#[verifier::external_body]
pub(crate) fn exec_insert_template(
    conn: &rusqlite::Connection,
    template_text: &str,
    name: &str,
    template_type: &str,
) -> (r: Result<(), StoreError>) {
    match conn.execute(
        "INSERT INTO Templates (template, comment, type) VALUES(?1,?2,?3)",
        (template_text, name, template_type),
    ) {
        Ok(_) => Ok(()),
        Err(e) => Err(StoreError { message: e.to_string() }),
    }
}

/// Relies on rusqlite's `Connection::execute`: runs the delete statement
/// for one template id. Deleting an absent id affects zero rows and is
/// reported as success by the store.
#[verifier::external_body]
pub(crate) fn exec_remove_template(conn: &rusqlite::Connection, id: u32) -> (r: Result<
    usize,
    StoreError,
>) {
    match conn.execute("DELETE FROM Templates WHERE id=?1", (id,)) {
        Ok(n) => Ok(n),
        Err(e) => Err(StoreError { message: e.to_string() }),
    }
}

/// Relies on rusqlite's `Connection::execute`: runs the update statement
/// for one template id.
#[verifier::external_body]
pub(crate) fn exec_update_template(
    conn: &rusqlite::Connection,
    template_text: &str,
    name: &str,
    template_type: &str,
    id: u32,
) -> (r: Result<usize, StoreError>) {
    match conn.execute(
        "UPDATE Templates SET template=?1, comment=?2, type=?3 WHERE id=?4",
        (template_text, name, template_type, id),
    ) {
        Ok(n) => Ok(n),
        Err(e) => Err(StoreError { message: e.to_string() }),
    }
}

/// Relies on rusqlite's `Connection::prepare` and `Statement::query_map`:
/// reads every persisted template row, each in the column order
/// `(id, template, comment, type)`.
#[verifier::external_body]
pub(crate) fn query_template_rows(conn: &rusqlite::Connection) -> (r: Result<
    Vec<TemplateRow>,
    StoreError,
>) {
    let run = || -> rusqlite::Result<Vec<TemplateRow>> {
        let mut stmt = conn.prepare("SELECT id, template, comment, type FROM Templates")?;
        let rows = stmt.query_map([], |row| {
            Ok(TemplateRow {
                id: row.get(0)?, template_text: row.get(1)?,
                name: row.get(2)?, template_type: row.get(3)?,
            })
        })?;
        rows.collect()
    };
    run().map_err(|e| StoreError { message: e.to_string() })
}

} // verus!
