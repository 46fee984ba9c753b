use gateway_kinesis_lambda_test::config::{
    default_cassandra_host, default_cassandra_port, default_log_level, parse_log_level, Config,
    LogLevel,
};
use gateway_kinesis_lambda_test::schema::{
    bootstrap_effect, cassandra_keyspace, cassandra_table, create_keyspace_query,
    create_table_query, insert_query, SchemaState,
};

#[test]
fn configuration_defaults() {
    assert_eq!(LogLevel::Debug, default_log_level());
    assert_eq!("127.0.0.1", default_cassandra_host());
    assert_eq!(9042, default_cassandra_port());
    let config = Config::new_default();
    assert_eq!(LogLevel::Debug, config.log_level);
    assert_eq!("127.0.0.1", config.cassandra_host);
    assert_eq!(9042, config.cassandra_port);
}

#[test]
fn log_level_parses_case_insensitively() {
    assert_eq!(LogLevel::Off, parse_log_level("off"));
    assert_eq!(LogLevel::Off, parse_log_level("OFF"));
    assert_eq!(LogLevel::Error, parse_log_level("error"));
    assert_eq!(LogLevel::Warn, parse_log_level("wArN"));
    assert_eq!(LogLevel::Info, parse_log_level("INFO"));
    assert_eq!(LogLevel::Debug, parse_log_level("debug"));
    assert_eq!(LogLevel::Trace, parse_log_level("Trace"));
}

#[test]
fn unparseable_log_level_falls_back_to_default() {
    assert_eq!(LogLevel::Debug, parse_log_level(""));
    assert_eq!(LogLevel::Debug, parse_log_level("verbose"));
    assert_eq!(LogLevel::Debug, parse_log_level("warning"));
}

#[test]
fn schema_names_and_statements() {
    assert_eq!("test_ks", cassandra_keyspace());
    assert_eq!("test_table", cassandra_table());
    assert_eq!(
        "CREATE KEYSPACE IF NOT EXISTS test_ks WITH REPLICATION = { 'class' : 'SimpleStrategy', 'replication_factor' : 1 };",
        create_keyspace_query()
    );
    assert_eq!(
        "CREATE TABLE IF NOT EXISTS test_ks.test_table ( id bigint PRIMARY KEY, description varchar, count bigint );",
        create_table_query()
    );
    assert_eq!(
        "INSERT INTO test_ks.test_table (id, description, count) VALUES (?, ?, ?)",
        insert_query()
    );
}

#[test]
fn bootstrap_creates_both_objects() {
    let fresh = SchemaState { keyspace_exists: false, table_exists: false };
    let after = bootstrap_effect(fresh);
    assert!(after.keyspace_exists);
    assert!(after.table_exists);
}

#[test]
fn bootstrap_twice_is_a_no_op_the_second_time() {
    let starts = [
        SchemaState { keyspace_exists: false, table_exists: false },
        SchemaState { keyspace_exists: true, table_exists: false },
        SchemaState { keyspace_exists: false, table_exists: true },
        SchemaState { keyspace_exists: true, table_exists: true },
    ];
    for s in starts {
        let once = bootstrap_effect(s);
        let twice = bootstrap_effect(once);
        assert_eq!(once, twice);
    }
}
