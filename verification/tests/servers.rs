//! Servers and their clients.

use grumpydb::collection::Collection;
use grumpydb::database::CollectionFiles;
use grumpydb::uid::Uuid;
use grumpydb::wal::applied_set::AppliedSet;
use grumpydb::wal::hlc::HlcClock;
use grumpydb::{Client, Database, GrumpyServer, Value};

fn setup() -> GrumpyServer {
    GrumpyServer::open()
}

/// Opens a closed database again from its files.
fn reopened(db: &Database) -> Database {
    let stored = |c: &Collection| CollectionFiles {
        name: c.name.clone(),
        data: c.data.pool.pm.image(),
        index: c.btree.pm.image(),
    };
    Database::open_with(
        db.node_id(),
        HlcClock::new(),
        &db.wal.log,
        db.collections.iter().map(stored).collect(),
        AppliedSet::default(),
        None,
        None,
    )
    .unwrap()
}

#[test]
fn test_server_open_creates_dir() {
    let server = GrumpyServer::open();
    assert!(server.list_clients().is_empty());
}

#[test]
fn test_create_and_list_clients() {
    let mut server = setup();
    assert!(server.list_clients().is_empty());

    server.create_client("alice").unwrap();
    server.create_client("bob").unwrap();

    let clients = server.list_clients();
    assert_eq!(clients, vec!["alice", "bob"]);
}

#[test]
fn test_drop_client() {
    let mut server = setup();
    server.create_client("temp").unwrap();

    // Add some data inside
    let client = server.client("temp").unwrap();
    client.create_database("mydb").unwrap();

    server.drop_client("temp").unwrap();
    assert!(server.list_clients().is_empty());
    assert!(server.client("temp").is_err());
}

#[test]
fn test_drop_nonexistent_client() {
    let mut server = setup();
    assert!(server.drop_client("nope").is_err());
}

#[test]
fn test_client_isolation() {
    let mut server = setup();
    server.create_client("alice").unwrap();
    server.create_client("bob").unwrap();

    // Alice creates a database
    {
        let alice = server.client("alice").unwrap();
        alice.create_database("myapp").unwrap();
        let db = alice.database("myapp").unwrap();
        db.create_collection("users").unwrap();
        db.insert(
            "users",
            Uuid::from_u128(1),
            Value::String("Alice's data".into()),
        )
        .unwrap();
    }

    // Bob creates a different database
    {
        let bob = server.client("bob").unwrap();
        bob.create_database("production").unwrap();
        let db = bob.database("production").unwrap();
        db.create_collection("tasks").unwrap();
        db.insert(
            "tasks",
            Uuid::from_u128(2),
            Value::String("Bob's task".into()),
        )
        .unwrap();
    }

    // Verify isolation
    {
        let alice = server.client("alice").unwrap();
        assert_eq!(alice.list_databases(), vec!["myapp"]);
        let db = alice.database("myapp").unwrap();
        assert_eq!(db.list_collections(), vec!["users"]);
    }
    {
        let bob = server.client("bob").unwrap();
        assert_eq!(bob.list_databases(), vec!["production"]);
        let db = bob.database("production").unwrap();
        assert_eq!(db.list_collections(), vec!["tasks"]);
    }
}

#[test]
fn test_full_hierarchy() {
    let mut server = setup();
    server.create_client("alice").unwrap();

    let client = server.client("alice").unwrap();
    client.create_database("db1").unwrap();
    client.create_database("db2").unwrap();

    {
        let db1 = client.database("db1").unwrap();
        db1.create_collection("coll_a").unwrap();
        db1.create_collection("coll_b").unwrap();
    }
    {
        let db2 = client.database("db2").unwrap();
        db2.create_collection("coll_c").unwrap();
        db2.create_collection("coll_d").unwrap();
    }

    assert_eq!(
        client.database("db1").unwrap().list_collections(),
        vec!["coll_a", "coll_b"]
    );
    assert_eq!(
        client.database("db2").unwrap().list_collections(),
        vec!["coll_c", "coll_d"]
    );
}

#[test]
fn server_test_persistence_across_reopen() {
    let closed = {
        let mut server = GrumpyServer::open();
        server.create_client("alice").unwrap();
        let client = server.client("alice").unwrap();
        client.create_database("mydb").unwrap();
        let db = client.database("mydb").unwrap();
        db.create_collection("items").unwrap();
        db.insert("items", Uuid::from_u128(42), Value::Integer(99))
            .unwrap();
        server.close().unwrap()
    };

    let mut server = GrumpyServer::open();
    for (name, stored) in &closed {
        let mut client = Client::open(name);
        for (db_name, db) in &stored.databases.entries {
            client.attach_database(db_name, reopened(db));
        }
        server.attach_client(name, client);
    }
    assert_eq!(server.list_clients(), vec!["alice"]);
    let client = server.client("alice").unwrap();
    assert_eq!(client.list_databases(), vec!["mydb"]);
    let db = client.database("mydb").unwrap();
    assert_eq!(db.list_collections(), vec!["items"]);
    let val = db.get("items", &Uuid::from_u128(42)).unwrap();
    assert_eq!(val, Some(Value::Integer(99)));
}

#[test]
fn test_invalid_client_name() {
    let mut server = setup();
    assert!(server.create_client("Bad-Name").is_err());
    assert!(server.create_client("").is_err());
}

#[test]
fn test_two_clients_two_databases_each() {
    let mut server = setup();
    server.create_client("c1").unwrap();
    server.create_client("c2").unwrap();

    for client_name in &["c1", "c2"] {
        let client = server.client(client_name).unwrap();
        client.create_database("d1").unwrap();
        client.create_database("d2").unwrap();
        for db_name in &["d1", "d2"] {
            let db = client.database(db_name).unwrap();
            db.create_collection("items").unwrap();
            db.insert(
                "items",
                Uuid::new_v4(),
                Value::String(format!("{client_name}/{db_name}")),
            )
            .unwrap();
        }
    }

    // Verify each client has 2 databases
    for client_name in &["c1", "c2"] {
        let client = server.client(client_name).unwrap();
        assert_eq!(client.list_databases(), vec!["d1", "d2"]);
        for db_name in &["d1", "d2"] {
            let db = client.database(db_name).unwrap();
            assert_eq!(db.document_count("items").unwrap(), 1);
        }
    }
}
