//! The destination schema: keyspace and table names, the statements that
//! create them idempotently, the insert statement, and a model of the schema
//! state showing that bootstrap is idempotent.

use vstd::prelude::*;

verus! {

/// Name of the destination keyspace.
pub fn cassandra_keyspace() -> (r: &'static str)
    ensures
        r@ == "test_ks"@,
{
    "test_ks"
}

/// Name of the destination table.
pub fn cassandra_table() -> (r: &'static str)
    ensures
        r@ == "test_table"@,
{
    "test_table"
}

/// Statement that creates the keyspace if it is absent.
pub fn create_keyspace_query() -> (r: &'static str)
    ensures
        r@ == "CREATE KEYSPACE IF NOT EXISTS test_ks WITH REPLICATION = { 'class' : 'SimpleStrategy', 'replication_factor' : 1 };"@,
{
    "CREATE KEYSPACE IF NOT EXISTS test_ks WITH REPLICATION = { 'class' : 'SimpleStrategy', 'replication_factor' : 1 };"
}

/// Statement that creates the table if it is absent.
pub fn create_table_query() -> (r: &'static str)
    ensures
        r@ == "CREATE TABLE IF NOT EXISTS test_ks.test_table ( id bigint PRIMARY KEY, description varchar, count bigint );"@,
{
    "CREATE TABLE IF NOT EXISTS test_ks.test_table ( id bigint PRIMARY KEY, description varchar, count bigint );"
}

/// Parameterized insert statement, precompiled once per handler instance.
pub fn insert_query() -> (r: &'static str)
    ensures
        r@ == "INSERT INTO test_ks.test_table (id, description, count) VALUES (?, ?, ?)"@,
{
    "INSERT INTO test_ks.test_table (id, description, count) VALUES (?, ?, ?)"
}

/// Whether the keyspace and the table exist on the destination cluster.
#[derive(Clone, Copy, PartialEq, Eq, Structural, Debug)]
pub struct SchemaState {
    pub keyspace_exists: bool,
    pub table_exists: bool,
}

/// Effect of one bootstrap pass: both create-if-absent statements have run,
/// so both objects exist afterwards, whatever existed before.
pub open spec fn spec_bootstrap(s: SchemaState) -> SchemaState {
    SchemaState { keyspace_exists: true, table_exists: true }
}

/// Applies the bootstrap effect to a schema state.
pub fn bootstrap_effect(s: SchemaState) -> (r: SchemaState)
    ensures
        r == spec_bootstrap(s),
{
    SchemaState { keyspace_exists: true, table_exists: true }
}

/// Law: running the schema bootstrap twice in succession leaves the same
/// schema state as running it once; the second pass is a no-op.
pub proof fn lemma_bootstrap_idempotent(s: SchemaState)
    ensures
        spec_bootstrap(spec_bootstrap(s)) == spec_bootstrap(s),
{
}

} // verus!
