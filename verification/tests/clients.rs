//! Clients and their databases.

use grumpydb::collection::Collection;
use grumpydb::database::CollectionFiles;
use grumpydb::uid::Uuid;
use grumpydb::wal::applied_set::AppliedSet;
use grumpydb::wal::hlc::HlcClock;
use grumpydb::{Client, Database, Value};

fn setup() -> Client {
    Client::open("alice")
}

/// Opens a closed database again from its files.
fn reopened(db: &Database) -> Database {
    let stored = |c: &Collection| CollectionFiles {
        name: c.name.clone(),
        data: c.data.pool.pm.image(),
        index: c.btree.pm.image(),
    };
    Database::open_with(
        db.node_id(),
        HlcClock::new(),
        &db.wal.log,
        db.collections.iter().map(stored).collect(),
        AppliedSet::default(),
        None,
        None,
    )
    .unwrap()
}

/// Opens a closed client again from its files.
fn reopened_client(closed: &Client) -> Client {
    let mut client = Client::open(closed.name());
    for (name, db) in &closed.databases.entries {
        client.attach_database(name, reopened(db));
    }
    client
}

#[test]
fn test_client_open_creates_dir() {
    let client = Client::open("newclient");
    assert_eq!(client.name(), "newclient");
    assert!(client.list_databases().is_empty());
}

#[test]
fn test_client_name() {
    let client = setup();
    assert_eq!(client.name(), "alice");
}

#[test]
fn test_create_and_list_databases() {
    let mut client = setup();
    assert!(client.list_databases().is_empty());

    client.create_database("myapp").unwrap();
    client.create_database("staging").unwrap();

    let dbs = client.list_databases();
    assert_eq!(dbs, vec!["myapp", "staging"]);
}

#[test]
fn test_drop_database() {
    let mut client = setup();
    client.create_database("temp").unwrap();

    // Insert some data to make sure it's a real database
    let db = client.database("temp").unwrap();
    db.create_collection("items").unwrap();

    client.drop_database("temp").unwrap();
    assert!(client.list_databases().is_empty());
    assert!(client.database("temp").is_err());
}

#[test]
fn test_drop_nonexistent_database() {
    let mut client = setup();
    assert!(client.drop_database("nope").is_err());
}

#[test]
fn test_database_access() {
    let mut client = setup();
    client.create_database("mydb").unwrap();

    let db = client.database("mydb").unwrap();
    db.create_collection("users").unwrap();
    assert_eq!(db.list_collections(), vec!["users"]);
}

#[test]
fn test_database_isolation() {
    let mut client = setup();
    client.create_database("db1").unwrap();
    client.create_database("db2").unwrap();

    {
        let db1 = client.database("db1").unwrap();
        db1.create_collection("users").unwrap();
    }
    {
        let db2 = client.database("db2").unwrap();
        db2.create_collection("tasks").unwrap();
    }

    assert_eq!(
        client.database("db1").unwrap().list_collections(),
        vec!["users"]
    );
    assert_eq!(
        client.database("db2").unwrap().list_collections(),
        vec!["tasks"]
    );
}

#[test]
fn client_test_persistence_across_reopen() {
    let closed = {
        let mut client = Client::open("persistent");
        client.create_database("mydb").unwrap();
        let db = client.database("mydb").unwrap();
        db.create_collection("items").unwrap();
        db.insert("items", Uuid::from_u128(1), Value::Integer(42))
            .unwrap();
        client.close().unwrap()
    };

    let mut client = reopened_client(&closed);
    assert_eq!(client.list_databases(), vec!["mydb"]);
    let db = client.database("mydb").unwrap();
    assert_eq!(db.list_collections(), vec!["items"]);
    let val = db.get("items", &Uuid::from_u128(1)).unwrap();
    assert_eq!(val, Some(Value::Integer(42)));
}

#[test]
fn test_lazy_open() {
    let closed = {
        let mut client = Client::open("lazy");
        client.create_database("existing").unwrap();
        client.close().unwrap()
    };

    let mut client = reopened_client(&closed);
    assert!(client.database("existing").is_ok());
}

#[test]
fn test_invalid_database_name() {
    let mut client = setup();
    assert!(client.create_database("Bad-Name").is_err());
    assert!(client.create_database("").is_err());
}
